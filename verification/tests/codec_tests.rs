use membership_transcript::codec::Integer;
use membership_transcript::curve::CurvePoint;
use membership_transcript::curve::CurveScalar;

#[test]
fn zero_encodes_to_empty() {
    let z = Integer::zero();
    assert_eq!(z.to_be_bytes(), Vec::<u8>::new());
}

#[test]
fn one_round_trips() {
    let one = Integer::from_u64(1);
    assert_eq!(one.to_be_bytes(), vec![1u8]);
    let back = Integer::from_be_bytes(&one.to_be_bytes());
    assert!(back.eq_value(&one));
}

#[test]
fn small_value_big_endian_layout() {
    let v = Integer::from_u64(0x1234);
    assert_eq!(v.to_be_bytes(), vec![0x12u8, 0x34]);
}

#[test]
fn max_word_round_trips() {
    let v = Integer::from_u64(u64::MAX);
    assert_eq!(v.to_be_bytes(), vec![0xffu8; 8]);
    let back = Integer::from_be_bytes(&v.to_be_bytes());
    assert!(back.eq_value(&v));
}

#[test]
fn modulus_minus_one_round_trips() {
    // The scalar-field modulus of a 256-bit curve, minus one, as canonical
    // big-endian bytes.
    let mut bytes = vec![
        0x73u8, 0xed, 0xa7, 0x53, 0x29, 0x9d, 0x7d, 0x48, 0x33, 0x39, 0xd8, 0x08, 0x09, 0xa1,
        0xd8, 0x05, 0x53, 0xbd, 0xa4, 0x02, 0xff, 0xfe, 0x5b, 0xfe, 0xff, 0xff, 0xff, 0xfe,
    ];
    bytes.push(0x00);
    let v = Integer::from_be_bytes(&bytes);
    assert_eq!(v.to_be_bytes(), bytes);
    let back = Integer::from_be_bytes(&v.to_be_bytes());
    assert!(back.eq_value(&v));
}

#[test]
fn large_multi_limb_round_trips() {
    let bytes: Vec<u8> = (1u8..=40).collect();
    let v = Integer::from_be_bytes(&bytes);
    assert_eq!(v.to_be_bytes(), bytes);
}

#[test]
fn leading_zeros_are_stripped() {
    let v = Integer::from_be_bytes(&[0, 0, 7]);
    assert_eq!(v.to_be_bytes(), vec![7u8]);
    assert!(v.eq_value(&Integer::from_u64(7)));
}

#[test]
fn distinct_values_compare_unequal() {
    let a = Integer::from_u64(300);
    let b = Integer::from_u64(301);
    assert!(!a.eq_value(&b));
    assert!(!a.eq_value(&Integer::zero()));
}

#[test]
fn scalar_one_encodes_fixed_width() {
    let s = CurveScalar::from_limbs(vec![1, 0, 0, 0]);
    let bytes = s.to_repr_bytes();
    assert_eq!(bytes.len(), 32);
    let mut expected = vec![0u8; 32];
    expected[31] = 1;
    assert_eq!(bytes, expected);
}

#[test]
fn scalar_limb_bytes_are_big_endian() {
    let s = CurveScalar::from_limbs(vec![0x0123456789abcdef]);
    assert_eq!(
        s.to_repr_bytes(),
        vec![0x01u8, 0x23, 0x45, 0x67, 0x89, 0xab, 0xcd, 0xef]
    );
}

#[test]
fn scalar_multi_limb_layout() {
    // Little-endian limbs: value is limbs[0] + 2^64 * limbs[1]; the most
    // significant limb's bytes come first.
    let s = CurveScalar::from_limbs(vec![2, 1]);
    let mut expected = vec![0u8; 16];
    expected[7] = 1;
    expected[15] = 2;
    assert_eq!(s.to_repr_bytes(), expected);
}

#[test]
fn point_encoding_layout() {
    let p = CurvePoint::affine(vec![1, 2], vec![3, 4]);
    assert_eq!(p.to_affine_bytes(), vec![1u8, 2, 3, 4, 0]);
}

#[test]
fn identity_has_single_encoding() {
    let p = CurvePoint::identity(2);
    assert_eq!(p.to_affine_bytes(), vec![0u8, 0, 0, 0, 1]);
}

#[test]
fn point_encoding_deterministic() {
    // Two independently built points with the same affine value serialize to
    // byte-identical output.
    let p1 = CurvePoint::affine((1u8..=32).collect(), (101u8..=132).collect());
    let p2 = CurvePoint::affine((1u8..=32).collect(), (101u8..=132).collect());
    assert_eq!(p1.to_affine_bytes(), p2.to_affine_bytes());
}

#[test]
fn point_encoding_separates_identity_from_origin() {
    // The infinity flag keeps the identity's encoding distinct from a finite
    // point with all-zero coordinates.
    let finite = CurvePoint::affine(vec![0, 0], vec![0, 0]);
    let identity = CurvePoint::identity(2);
    assert_ne!(finite.to_affine_bytes(), identity.to_affine_bytes());
}
