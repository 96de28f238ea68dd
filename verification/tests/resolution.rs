use g2field::{resolve, ConstructionError, Field, FieldSpec};

#[test]
fn test_settings_parser() {
    let r = resolve(3, None);
    assert!(r.is_ok());
    assert_eq!(
        r.unwrap(),
        FieldSpec { p: 3, modulus: 0b1011, generator: 0b10, size: 8 },
    );
}

#[test]
fn test_trait_impl_test_build() {
    let fs = resolve(8, Some(0b1_0001_1011)).unwrap();
    let f = Field::build(fs).unwrap();
    assert_eq!(f.params.size, 256);
    assert_eq!(f.params.modulus, 0b1_0001_1011);
    assert_eq!(f.from_int(0), 0);
    assert_eq!(f.from_int(1), 1);
}

#[test]
fn test_unsupported_degree() {
    assert_eq!(resolve(0, None), Err(ConstructionError::UnsupportedDegree));
    assert_eq!(resolve(33, None), Err(ConstructionError::UnsupportedDegree));
    assert_eq!(resolve(0, Some(0b111)), Err(ConstructionError::UnsupportedDegree));
}

#[test]
fn test_invalid_modulus() {
    // wrong degree
    assert_eq!(resolve(8, Some(0b111)), Err(ConstructionError::InvalidModulus));
    // reducible: x^3 + 1 = (x + 1)(x^2 + x + 1)
    assert_eq!(resolve(3, Some(0b1001)), Err(ConstructionError::InvalidModulus));
    // reducible: x^2 + 1 = (x + 1)^2
    assert_eq!(resolve(2, Some(0b101)), Err(ConstructionError::InvalidModulus));
    // the zero and unit polynomials are no moduli at all
    assert_eq!(resolve(1, Some(0)), Err(ConstructionError::InvalidModulus));
    assert_eq!(resolve(1, Some(1)), Err(ConstructionError::InvalidModulus));
}

#[test]
fn test_build_rejects_oversized_tables() {
    let fs = resolve(18, None).unwrap();
    assert!(matches!(Field::build(fs), Err(ConstructionError::UnsupportedDegree)));
}

#[test]
fn test_resolution_is_deterministic() {
    let a = resolve(8, None).unwrap();
    let b = resolve(8, None).unwrap();
    assert_eq!(a, b);
    // the resolved modulus is the first irreducible polynomial of degree 8:
    // x^8 + x^4 + x^3 + x + 1
    assert_eq!(a.modulus, 0b1_0001_1011);
    // x has order 51 in this field, so the first generator is x + 1
    assert_eq!(a.generator, 0b11);
}

#[test]
fn test_explicit_modulus_is_kept() {
    let fs = resolve(4, Some(0b10011)).unwrap();
    assert_eq!(fs.modulus, 0b10011);
    assert_eq!(fs.p, 4);
    assert_eq!(fs.size, 16);
}
