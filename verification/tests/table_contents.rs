use g2field::tables::{build_inv_table, build_mul_table};

#[test]
fn test_mul_table_contents() {
    // GF(4) with modulus x^2 + x + 1: one chunk position, 256 x 256 entries.
    let t = build_mul_table(0b111, 4, 1);
    assert_eq!(t.len(), 1);
    assert_eq!(t[0].len(), 1);
    assert_eq!(t[0][0].len(), 256);
    assert_eq!(t[0][0][0].len(), 256);

    // products inside the field
    assert_eq!(t[0][0][0][3], 0);
    assert_eq!(t[0][0][1][1], 1);
    assert_eq!(t[0][0][1][3], 3);
    assert_eq!(t[0][0][2][2], 3); // x * x = x + 1
    assert_eq!(t[0][0][2][3], 1); // x * (x + 1) = 1
    assert_eq!(t[0][0][3][3], 2); // (x + 1)^2 = x

    // zero padding where a byte value falls outside the field
    for b in 4..256 {
        assert_eq!(t[0][0][b][1], 0);
        assert_eq!(t[0][0][1][b], 0);
    }
}

#[test]
fn test_inv_table_contents() {
    // The AES field: x^8 + x^4 + x^3 + x + 1.
    let t = build_inv_table(0b1_0001_1011, 256);
    assert_eq!(t.len(), 256);
    assert_eq!(t[0], 0);
    assert_eq!(t[1], 1);
    assert_eq!(t[0x53], 0xCA);
    assert_eq!(t[0xCA], 0x53);
    for e in 1..256 {
        assert!(t[e] >= 1 && t[e] < 256);
    }
}
