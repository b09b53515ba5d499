use present24::sort::radix_sort;

fn value(e: u64) -> u64 {
    e & 0xffffff
}

fn entries() -> Vec<u64> {
    // Pseudo-random entries with distinct keys and deliberately colliding
    // values in the low 24 bits.
    let mut v = Vec::new();
    for k in 0u64..300 {
        let val = (k.wrapping_mul(0x9e3779b97f4a7c15) >> 40) & 0xff_ff;
        v.push((k << 24) | (val % 97) << 8 | (k % 3));
    }
    v
}

#[test]
fn sort_is_sorted_and_permutation() {
    let mut v = entries();
    let unsorted = v.clone();
    let mut tmp = vec![0u64; v.len()];
    radix_sort(&mut v, &mut tmp);

    assert_eq!(v.len(), unsorted.len());
    for w in v.windows(2) {
        assert!(value(w[0]) <= value(w[1]));
    }
    // Permutation: the same entries, compared as fully sorted words.
    let mut a = v.clone();
    let mut b = unsorted.clone();
    a.sort_unstable();
    b.sort_unstable();
    assert_eq!(a, b);
}

#[test]
fn sort_of_permutations_same_values() {
    // Two different arrangements of one multiset of entries sort to
    // identical value sequences (tie order aside).
    let v1 = entries();
    let mut v2 = v1.clone();
    v2.reverse();
    v2.swap(7, 131);

    let mut tmp = vec![0u64; v1.len()];
    let mut s1 = v1.clone();
    radix_sort(&mut s1, &mut tmp);
    let mut s2 = v2.clone();
    radix_sort(&mut s2, &mut tmp);

    let vals1: Vec<u64> = s1.iter().map(|e| value(*e)).collect();
    let vals2: Vec<u64> = s2.iter().map(|e| value(*e)).collect();
    assert_eq!(vals1, vals2);
}

#[test]
fn sort_exact_order() {
    let mut v = vec![
        (1u64 << 24) | 0x030201,
        (2u64 << 24) | 0x000000,
        (3u64 << 24) | 0xffffff,
        (4u64 << 24) | 0x030201,
        (5u64 << 24) | 0x000100,
    ];
    let mut tmp = vec![0u64; v.len()];
    radix_sort(&mut v, &mut tmp);
    let vals: Vec<u64> = v.iter().map(|e| value(*e)).collect();
    assert_eq!(vals, vec![0x000000, 0x000100, 0x030201, 0x030201, 0xffffff]);
}
