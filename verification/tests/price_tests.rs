use exchange::types::{price_from_bits, price_to_bits};

fn key(x: f64) -> i64 {
    price_from_bits(x.to_bits()).unwrap()
}

#[test]
fn price_keys_order_as_floats() {
    let xs = [
        f64::NEG_INFINITY,
        -1.0e300,
        -2.5,
        -1.0,
        -0.010000000000000002,
        -5.0e-324,
        -0.0,
        0.0,
        5.0e-324,
        0.01,
        0.010000000000000002,
        0.02,
        1.0,
        1.0000000000000002,
        2.5,
        1.0e300,
        f64::MAX,
        f64::INFINITY,
    ];
    for a in xs {
        for b in xs {
            assert_eq!(a < b, key(a) < key(b), "{} < {}", a, b);
            assert_eq!(a == b, key(a) == key(b), "{} == {}", a, b);
        }
    }
}

#[test]
fn nan_has_no_price_key() {
    assert_eq!(price_from_bits(f64::NAN.to_bits()), None);
    assert_eq!(price_from_bits((-f64::NAN).to_bits()), None);
    assert_eq!(price_from_bits(0x7ff0_0000_0000_0001), None);
    assert_eq!(price_from_bits(0x7ff0_0000_0000_0000), Some(0x7ff0_0000_0000_0000));
}

#[test]
fn price_keys_exact_values() {
    assert_eq!(key(1.0), 0x3ff0_0000_0000_0000);
    assert_eq!(key(-1.0), -0x3ff0_0000_0000_0000);
    assert_eq!(key(0.0), 0);
    assert_eq!(key(-0.0), 0);
}

#[test]
fn price_bits_round_trip() {
    for x in [f64::NEG_INFINITY, -2.5, -5.0e-324, 0.0, 0.01, 1.0e-310, 3.75, f64::MAX, f64::INFINITY] {
        assert_eq!(f64::from_bits(price_to_bits(key(x))).to_bits(), x.to_bits());
    }
    // both zeros come back as +0.0
    assert_eq!(price_to_bits(key(-0.0)), 0);
}
