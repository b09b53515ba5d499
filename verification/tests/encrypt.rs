use present24::encrypt::present24_encrypt;
use present24::utils::generate_round_keys;

#[test]
fn encrypt_vector1() {
    let m = [0x00, 0x00, 0x00];
    let k = [0x00, 0x00, 0x00];

    let rk = generate_round_keys(k);
    let res = present24_encrypt(m, rk);

    assert_eq!(res, [0xbb, 0x57, 0xe6]);
}

#[test]
fn encrypt_vector2() {
    let m = [0xff, 0xff, 0xff];
    let k = [0x00, 0x00, 0x00];

    let rk = generate_round_keys(k);
    let res = present24_encrypt(m, rk);

    assert_eq!(res, [0x73, 0x92, 0x93]);
}

#[test]
fn encrypt_vector3() {
    let m = [0x00, 0x00, 0x00];
    let k = [0xff, 0xff, 0xff];

    let rk = generate_round_keys(k);
    let res = present24_encrypt(m, rk);

    assert_eq!(res, [0x1b, 0x56, 0xce]);
}

#[test]
fn encrypt_vector4() {
    let m = [0xf9, 0x55, 0xb9];
    let k = [0xd1, 0xbd, 0x2d];

    let rk = generate_round_keys(k);
    let res = present24_encrypt(m, rk);

    assert_eq!(res, [0x47, 0xa9, 0x29]);
}
