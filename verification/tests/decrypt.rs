use present24::decrypt::present24_decrypt;
use present24::utils::generate_round_keys;

#[test]
fn decrypt_vector1() {
    let m = [0xbb, 0x57, 0xe6];
    let k = [0x00, 0x00, 0x00];

    let rk = generate_round_keys(k);
    let res = present24_decrypt(m, rk);

    assert_eq!(res, [0x00, 0x00, 0x00]);
}

#[test]
fn decrypt_vector2() {
    let m = [0x73, 0x92, 0x93];
    let k = [0x00, 0x00, 0x00];

    let rk = generate_round_keys(k);
    let res = present24_decrypt(m, rk);

    assert_eq!(res, [0xff, 0xff, 0xff]);
}

#[test]
fn decrypt_vector3() {
    let m = [0x1b, 0x56, 0xce];
    let k = [0xff, 0xff, 0xff];

    let rk = generate_round_keys(k);
    let res = present24_decrypt(m, rk);

    assert_eq!(res, [0x00, 0x00, 0x00]);
}

#[test]
fn decrypt_vector4() {
    let m = [0x47, 0xa9, 0x29];
    let k = [0xd1, 0xbd, 0x2d];

    let rk = generate_round_keys(k);
    let res = present24_decrypt(m, rk);

    assert_eq!(res, [0xf9, 0x55, 0xb9]);
}
