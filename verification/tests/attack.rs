use present24::attack::AttackError;
use present24::attack::HashTables;
use present24::attack::check_collision;
use present24::attack::find_run;
use present24::attack::partition_bounds;
use present24::attack::present24_attack;
use present24::encrypt::present24_encrypt;
use present24::utils::generate_round_keys;

fn key_bytes(k: u64) -> [u8; 3] {
    [(k >> 16) as u8, (k >> 8) as u8, k as u8]
}

fn entry(key: u64, value: u64) -> u64 {
    (key << 24) | value
}

fn double_encrypt(m: [u8; 3], k1: u64, k2: u64) -> [u8; 3] {
    let rk1 = generate_round_keys(key_bytes(k1));
    let rk2 = generate_round_keys(key_bytes(k2));
    present24_encrypt(present24_encrypt(m, rk1), rk2)
}

#[test]
fn run_interior() {
    // Sorted table with a planted equal-value run of length 5 inside.
    let mut table = Vec::new();
    for i in 0u64..5 {
        table.push(entry(i, i * 10));
    }
    for i in 0u64..5 {
        table.push(entry(100 + i, 45));
    }
    for i in 0u64..5 {
        table.push(entry(200 + i, 50 + i * 10));
    }
    let run = find_run(&table, entry(999, 45)).unwrap();
    assert_eq!(run, (5, 10));
    assert_eq!(run.1 - run.0, 5);
}

#[test]
fn run_at_start() {
    let mut table = Vec::new();
    for i in 0u64..4 {
        table.push(entry(i, 7));
    }
    for i in 0u64..6 {
        table.push(entry(50 + i, 100 + i));
    }
    let run = find_run(&table, entry(0, 7)).unwrap();
    assert_eq!(run, (0, 4));
}

#[test]
fn run_at_end() {
    let mut table = Vec::new();
    for i in 0u64..6 {
        table.push(entry(i, i));
    }
    for i in 0u64..3 {
        table.push(entry(80 + i, 0xffffff));
    }
    let run = find_run(&table, entry(1, 0xffffff)).unwrap();
    assert_eq!(run, (6, 9));
}

#[test]
fn run_single_and_absent() {
    let table = vec![entry(1, 3), entry(2, 8), entry(3, 20)];
    assert_eq!(find_run(&table, entry(9, 8)).unwrap(), (1, 2));
    assert_eq!(find_run(&table, entry(9, 9)), None);
    let empty: Vec<u64> = Vec::new();
    assert_eq!(find_run(&empty, entry(9, 9)), None);
}

#[test]
fn verifier_accepts_true_pair() {
    let k1: u64 = 0x010203;
    let k2: u64 = 0xaabbcc;
    let m1 = [0x12, 0x34, 0x56];
    let m2 = [0x9a, 0xbc, 0xde];
    let c2 = double_encrypt(m2, k1, k2);
    // The middle value both sides meet at on the first pair.
    let mid = present24_encrypt(m1, generate_round_keys(key_bytes(k1)));
    let v = ((mid[0] as u64) << 16) | ((mid[1] as u64) << 8) | (mid[2] as u64);
    let e = entry(k1, v);
    let d = entry(k2, v);
    assert_eq!(check_collision(e, d, &m2, &c2), Some((k1, k2)));
}

#[test]
fn verifier_rejects_first_pair_only() {
    let k1: u64 = 0x010203;
    let k2: u64 = 0xaabbcc;
    let k3: u64 = 0x090909;
    let m1 = [0x12, 0x34, 0x56];
    let m2 = [0x9a, 0xbc, 0xde];
    let c2 = double_encrypt(m2, k1, k2);
    let mid = present24_encrypt(m1, generate_round_keys(key_bytes(k1)));
    let v = ((mid[0] as u64) << 16) | ((mid[1] as u64) << 8) | (mid[2] as u64);
    // A value collision on the first pair that pairs the wrong second key.
    let e = entry(k1, v);
    let d = entry(k3, v);
    assert_eq!(check_collision(e, d, &m2, &c2), None);
}

#[test]
fn end_to_end_reduced_keyspace() {
    let k1: u64 = 5;
    let k2: u64 = 9;
    let count: usize = 4096;
    let m1 = [0xce, 0x15, 0x7a];
    let c1 = double_encrypt(m1, k1, k2);
    let m2 = [0x41, 0x81, 0xc8];
    let c2 = double_encrypt(m2, k1, k2);

    let pairs = present24_attack(&m1, &c1, &m2, &c2, count).unwrap();
    assert!(pairs.contains(&(k1, k2)));

    // The reported set is identical whatever the worker count.
    let mut reference: Option<Vec<(u64, u64)>> = None;
    for nb in [1usize, 2, 4] {
        let mut ht = HashTables::generate(0, count, &m1, &c1).unwrap();
        ht.sort();
        let mut union: Vec<(u64, u64)> = Vec::new();
        for w in 0..nb {
            let (s, e) = partition_bounds(w, nb, count).unwrap();
            union.extend(ht.attack(s, e, &m2, &c2));
        }
        union.sort_unstable();
        union.dedup();
        match &reference {
            None => reference = Some(union),
            Some(r) => assert_eq!(&union, r),
        }
    }
    let mut whole = pairs.clone();
    whole.sort_unstable();
    whole.dedup();
    assert_eq!(Some(whole), reference);
}

#[test]
fn range_errors() {
    let m = [0, 0, 0];
    assert_eq!(
        HashTables::generate(0, 0x1000001, &m, &m).err(),
        Some(AttackError::Range)
    );
    assert_eq!(HashTables::generate(5, 3, &m, &m).err(), Some(AttackError::Range));
    assert_eq!(
        present24_attack(&m, &m, &m, &m, 0x1000001).err(),
        Some(AttackError::Range)
    );
}

#[test]
fn config_errors() {
    assert_eq!(partition_bounds(0, 0, 100).err(), Some(AttackError::Config));
    assert_eq!(partition_bounds(3, 3, 100).err(), Some(AttackError::Config));
    assert_eq!(partition_bounds(0, 1, 100).ok(), Some((0, 100)));
    assert_eq!(partition_bounds(1, 3, 100).ok(), Some((33, 66)));
    assert_eq!(partition_bounds(2, 3, 100).ok(), Some((66, 100)));
}
