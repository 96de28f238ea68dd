use g2field::{ceil_log256, resolve, ArithmeticError, ConstructionError, Field};

fn make_field(p: u64, modulus: Option<u64>) -> Field {
    let fs = resolve(p, modulus).expect("field resolution must succeed");
    Field::build(fs).expect("table construction must succeed")
}

#[test]
fn test_ceil_log256() {
    assert_eq!(0, ceil_log256(0));
    assert_eq!(1, ceil_log256(1));
    assert_eq!(1, ceil_log256(256));
    assert_eq!(2, ceil_log256(257));
    assert_eq!(2, ceil_log256(65536));
    assert_eq!(3, ceil_log256(65537));
    assert_eq!(3, ceil_log256(131072));
    assert_eq!(3, ceil_log256(16777216));
    assert_eq!(4, ceil_log256(16777217));
}

#[test]
fn test_rijndael() {
    let f = make_field(8, Some(0b_1_0001_1011));
    let a = f.from_int(0);
    let b = f.from_int(1);
    let c = f.from_int(0x53);
    let d = f.from_int(0xca);

    assert_eq!(f.params.size - 1, 0b1111_1111);

    assert_eq!(f.add(b, a), b);
    assert_eq!(f.add(a, b), b);

    assert_eq!(f.mul(a, b), a);
    assert_eq!(f.mul(b, a), a);
    assert_eq!(f.mul(c, d), b);
    assert_eq!(f.mul(d, c), b);

    assert_eq!(f.div(b, c).unwrap(), d);
    assert_eq!(f.div(b, d).unwrap(), c);
    assert_eq!(f.div(c, b).unwrap(), c);
}

#[test]
fn test_doc_examples_test_g16() {
    let f = make_field(4, Some(0b10011));
    let one = f.from_int(1);
    let a = f.from_int(5);
    let b = f.from_int(4);
    let c = f.from_int(7);
    assert_eq!(f.add(a, c), f.from_int(2));
    assert_eq!(f.sub(a, c), f.from_int(2));
    assert_eq!(f.mul(a, b), c);
    assert_eq!(f.div(a, c).unwrap(), f.div(one, b).unwrap());
    assert_eq!(f.div(b, b).unwrap(), one);
}

#[test]
fn test_doc_examples_test_gf1024() {
    let f = make_field(10, Some(0b100_0000_1001));
    let a = f.from_int(555);
    let b = f.from_int(444);

    let c = f.add(a, b);
    let d = f.mul(a, b);
    assert_eq!(765, d);

    assert_eq!(f.add(c, a), b);
    assert_eq!(f.add(c, b), a);
    assert_eq!(f.div(d, b).unwrap(), a);
    assert_eq!(f.div(d, a).unwrap(), b);
    assert_eq!(f.div(d, b).unwrap(), 555);
}

#[test]
fn test_doc_examples_test_g4() {
    let f = make_field(2, None);
    let g = f.params.generator;
    let one = f.from_int(1);
    assert_ne!(f.mul(g, g), one);
    assert_eq!(f.mul(f.mul(g, g), g), one);
}

#[test]
fn test_doc_examples_test_pow() {
    let f = make_field(4, Some(0b10011));
    let g = f.from_int(2);
    assert_eq!(f.pow(g, 0), f.from_int(1));
    assert_eq!(f.pow(g, 1), g);
    assert_eq!(f.pow(g, 2), f.from_int(4));
    assert_eq!(f.pow(g, 3), f.from_int(8));
    assert_eq!(f.pow(g, 4), f.from_int(3));
}

#[test]
fn test_gf65536() {
    let f = make_field(16, None);
    let z = f.from_int(0);
    let e = f.from_int(1);
    let a = f.from_int(65535);
    let b = f.from_int(30000);

    assert_eq!(z, f.add(a, a));
    assert_eq!(z, f.sub(a, a));

    assert_eq!(e, f.mul(a, f.div(e, a).unwrap()));
    assert_eq!(f.mul(a, b), f.mul(b, a));
}

#[test]
fn test_gf131072() {
    let f = make_field(17, None);
    let z = f.from_int(0);
    let e = f.from_int(1);
    let a = f.from_int(131071);
    let b = f.from_int(30000);

    assert_eq!(z, f.add(a, a));
    assert_eq!(z, f.sub(a, a));

    assert_eq!(e, f.mul(a, f.div(e, a).unwrap()));
    assert_eq!(f.mul(a, b), f.mul(b, a));
}

#[test]
fn test_div_impl() {
    let f = make_field(2, None);
    let z = f.from_int(0);
    let a = f.from_int(3);

    assert_eq!(z, f.div(z, a).unwrap());
}

#[test]
#[should_panic]
fn test_div_panic() {
    let f = make_field(2, None);
    let z = f.from_int(0);
    let a = f.from_int(3);

    let _ = f.div(a, z).unwrap();
}

#[test]
fn test_division_by_zero_error() {
    let f = make_field(4, Some(0b10011));
    for a in 0..16 {
        assert_eq!(f.div(a, 0), Err(ArithmeticError::DivisionByZero));
    }
}

#[test]
fn test_generator_order() {
    let f = make_field(4, Some(0b10011));
    let g = f.params.generator;
    let one = f.from_int(1);
    assert_eq!(f.pow(g, (f.params.size - 1) as usize), one);
    for k in 1..(f.params.size - 1) as usize {
        assert_ne!(f.pow(g, k), one);
    }
}

#[test]
fn test_pow_matches_repeated_multiplication() {
    let f = make_field(8, Some(0b_1_0001_1011));
    let a = f.from_int(0x57);
    let mut acc = f.from_int(1);
    for n in 0..9 {
        assert_eq!(f.pow(a, n), acc);
        acc = f.mul(acc, a);
    }
    assert_eq!(f.pow(f.from_int(0), 0), f.from_int(1));
    assert_eq!(f.pow(f.from_int(0), 3), f.from_int(0));
}

#[test]
fn test_round_trip_conversion() {
    let f = make_field(4, Some(0b10011));
    for v in 0..16u64 {
        assert_eq!(f.from_int(v), v);
    }
    assert_eq!(f.from_int(16), 0);
    assert_eq!(f.from_int(255), 15);
    assert_eq!(f.from_int(u64::MAX), 15);
}

#[test]
fn test_sum_and_product_folds() {
    let f = make_field(8, Some(0b_1_0001_1011));
    let empty: Vec<u64> = Vec::new();
    assert_eq!(f.sum(&empty), 0);
    assert_eq!(f.product(&empty), 1);

    let xs = vec![1u64, 2, 4, 8];
    assert_eq!(f.sum(&xs), 15);

    let ys = vec![0x53u64, 0xca];
    assert_eq!(f.product(&ys), 1);

    let zs = vec![0x57u64, 0x57, 0x57];
    assert_eq!(f.product(&zs), f.pow(0x57, 3));
}

#[test]
fn test_neg_is_identity() {
    let f = make_field(4, Some(0b10011));
    for a in 0..16u64 {
        assert_eq!(f.neg(a), a);
        assert_eq!(f.add(a, f.neg(a)), 0);
    }
}

#[test]
fn test_field_axioms_small_field() {
    let f = make_field(3, None);
    let zero = f.from_int(0);
    let one = f.from_int(1);
    for a in 0..8u64 {
        assert_eq!(f.add(a, zero), a);
        assert_eq!(f.add(a, a), zero);
        assert_eq!(f.mul(a, one), a);
        assert_eq!(f.mul(a, zero), zero);
        for b in 0..8u64 {
            assert_eq!(f.add(a, b), f.add(b, a));
            assert_eq!(f.mul(a, b), f.mul(b, a));
            if b != 0 {
                assert_eq!(f.mul(f.div(a, b).unwrap(), b), a);
                assert_eq!(f.div(b, b).unwrap(), one);
            }
            for c in 0..8u64 {
                assert_eq!(f.add(f.add(a, b), c), f.add(a, f.add(b, c)));
                assert_eq!(f.mul(f.mul(a, b), c), f.mul(a, f.mul(b, c)));
                assert_eq!(f.mul(a, f.add(b, c)), f.add(f.mul(a, b), f.mul(a, c)));
            }
        }
    }
}
