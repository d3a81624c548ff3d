use axis_table::{bits_of_key, key_of_bits};

fn samples() -> Vec<f64> {
    vec![
        f64::NEG_INFINITY,
        f64::MIN,
        -1.0e300,
        -12.5,
        -1.0,
        -f64::MIN_POSITIVE,
        -5e-324,
        -0.0,
        0.0,
        5e-324,
        f64::MIN_POSITIVE,
        0.1,
        1.0,
        1.5,
        12.5,
        1.0e300,
        f64::MAX,
        f64::INFINITY,
    ]
}

#[test]
fn keys_of_bits_at_the_ends() {
    assert_eq!(key_of_bits(0), 0);
    assert_eq!(key_of_bits(1), 1);
    assert_eq!(key_of_bits(0x7FFF_FFFF_FFFF_FFFF), i64::MAX);
    assert_eq!(key_of_bits(0x8000_0000_0000_0000), -1);
    assert_eq!(key_of_bits(0x8000_0000_0000_0001), -2);
    assert_eq!(key_of_bits(u64::MAX), i64::MIN);
}

#[test]
fn bits_of_keys_at_the_ends() {
    assert_eq!(bits_of_key(0), 0);
    assert_eq!(bits_of_key(i64::MAX), 0x7FFF_FFFF_FFFF_FFFF);
    assert_eq!(bits_of_key(-1), 0x8000_0000_0000_0000);
    assert_eq!(bits_of_key(i64::MIN), u64::MAX);
}

#[test]
fn keys_ascend_as_the_numbers_do() {
    let keys: Vec<i64> = samples().iter().map(|f| key_of_bits(f.to_bits())).collect();
    for w in keys.windows(2) {
        assert!(w[0] < w[1]);
    }
}

#[test]
fn keys_agree_with_the_total_order_of_doubles() {
    let all = samples();
    for a in &all {
        for b in &all {
            let by_key = key_of_bits(a.to_bits()).cmp(&key_of_bits(b.to_bits()));
            assert_eq!(by_key, a.total_cmp(b));
        }
    }
}

#[test]
fn numbers_are_found_again_from_their_keys() {
    for f in samples() {
        let back = f64::from_bits(bits_of_key(key_of_bits(f.to_bits())));
        assert_eq!(back.to_bits(), f.to_bits());
    }
    for k in [i64::MIN, -2, -1, 0, 1, 2, i64::MAX] {
        assert_eq!(key_of_bits(bits_of_key(k)), k);
    }
}
