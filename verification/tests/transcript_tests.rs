use membership_transcript::codec::GroupElement;
use membership_transcript::codec::Integer;
use membership_transcript::curve::CurvePoint;
use membership_transcript::curve::CurveScalar;
use membership_transcript::transcript::fresh_transcript;
use membership_transcript::transcript::TranscriptProtocolChallenge;
use membership_transcript::transcript::TranscriptProtocolCurve;
use membership_transcript::transcript::TranscriptProtocolInteger;

fn generator_point() -> CurvePoint {
    CurvePoint::affine((1u8..=32).collect(), (101u8..=132).collect())
}

#[test]
fn end_to_end_scenario_reproducible() {
    // Absorb the integer 7 under "x" and a fixed curve point under "P", then
    // extract a 128-bit challenge under "c"; an identical fresh run must
    // reproduce the same challenge bit for bit.
    let mut t1 = fresh_transcript(b"membership");
    t1.append_integer_scalar(b"x", &Integer::from_u64(7));
    t1.append_curve_point(b"P", &generator_point());
    let c1 = t1.challenge_scalar(b"c", 128);

    let mut t2 = fresh_transcript(b"membership");
    t2.append_integer_scalar(b"x", &Integer::from_u64(7));
    t2.append_curve_point(b"P", &generator_point());
    let c2 = t2.challenge_scalar(b"c", 128);

    assert!(c1.eq_value(&c2));
    assert_eq!(c1.to_be_bytes(), c2.to_be_bytes());
}

#[test]
fn end_to_end_scenario_label_change_changes_challenge() {
    let mut t1 = fresh_transcript(b"membership");
    t1.append_integer_scalar(b"x", &Integer::from_u64(7));
    t1.append_curve_point(b"P", &generator_point());
    let c1 = t1.challenge_scalar(b"c", 128);

    let mut t2 = fresh_transcript(b"membership");
    t2.append_integer_scalar(b"y", &Integer::from_u64(7));
    t2.append_curve_point(b"P", &generator_point());
    let c2 = t2.challenge_scalar(b"c", 128);

    assert!(!c1.eq_value(&c2));
}

#[test]
fn challenge_deterministic_for_fixed_history() {
    let mut t1 = fresh_transcript(b"det");
    t1.append_integer_scalar(b"a", &Integer::from_u64(123456789));
    let c1 = t1.challenge_scalar(b"chal", 256);

    let mut t2 = fresh_transcript(b"det");
    t2.append_integer_scalar(b"a", &Integer::from_u64(123456789));
    let c2 = t2.challenge_scalar(b"chal", 256);

    assert_eq!(c1.to_be_bytes(), c2.to_be_bytes());
}

#[test]
fn absorption_order_changes_challenge() {
    let a = Integer::from_u64(1);
    let b = Integer::from_u64(2);

    let mut t1 = fresh_transcript(b"order");
    t1.append_integer_scalar(b"v", &a);
    t1.append_integer_scalar(b"v", &b);
    let c1 = t1.challenge_scalar(b"c", 128);

    let mut t2 = fresh_transcript(b"order");
    t2.append_integer_scalar(b"v", &b);
    t2.append_integer_scalar(b"v", &a);
    let c2 = t2.challenge_scalar(b"c", 128);

    assert!(!c1.eq_value(&c2));
}

#[test]
fn absorption_label_changes_challenge() {
    let v = Integer::from_u64(99);

    let mut t1 = fresh_transcript(b"label");
    t1.append_integer_scalar(b"left", &v);
    let c1 = t1.challenge_scalar(b"c", 128);

    let mut t2 = fresh_transcript(b"label");
    t2.append_integer_scalar(b"right", &v);
    let c2 = t2.challenge_scalar(b"c", 128);

    assert!(!c1.eq_value(&c2));
}

#[test]
fn domain_separation_label_changes_challenge() {
    let mut t1 = fresh_transcript(b"proof-one");
    let c1 = t1.challenge_scalar(b"c", 128);

    let mut t2 = fresh_transcript(b"proof-two");
    let c2 = t2.challenge_scalar(b"c", 128);

    assert!(!c1.eq_value(&c2));
}

#[test]
fn challenge_fits_requested_bit_length() {
    let mut t = fresh_transcript(b"bits");
    t.append_integer_scalar(b"x", &Integer::from_u64(7));
    let c = t.challenge_scalar(b"c", 128);
    // 128 bits: at most 16 canonical bytes.
    assert!(c.to_be_bytes().len() <= 16);
}

#[test]
fn challenge_of_zero_bits_is_zero() {
    let mut t = fresh_transcript(b"bits");
    let c = t.challenge_scalar(b"c", 0);
    assert!(c.eq_value(&Integer::zero()));
    assert_eq!(c.to_be_bytes(), Vec::<u8>::new());
}

#[test]
fn challenge_bit_length_rounds_down() {
    // Twelve bits round down to one byte.
    let mut t1 = fresh_transcript(b"round");
    let c1 = t1.challenge_scalar(b"c", 12);
    assert!(c1.to_be_bytes().len() <= 1);

    // A whole-byte request from the same history draws the same first byte
    // count: eight bits also give one byte.
    let mut t2 = fresh_transcript(b"round");
    let c2 = t2.challenge_scalar(b"c", 8);
    assert_eq!(c1.to_be_bytes(), c2.to_be_bytes());
}

#[test]
fn successive_challenges_differ() {
    // A squeeze advances the transcript state, so repeating the same request
    // yields a fresh, different challenge.
    let mut t = fresh_transcript(b"advance");
    let c1 = t.challenge_scalar(b"c", 128);
    let c2 = t.challenge_scalar(b"c", 128);
    assert!(!c1.eq_value(&c2));
}

#[test]
fn group_element_absorption_deterministic() {
    let mut t1 = fresh_transcript(b"group");
    t1.append_integer_point(b"g", &GroupElement::from_representative(Integer::from_u64(42)));
    let c1 = t1.challenge_scalar(b"c", 128);

    let mut t2 = fresh_transcript(b"group");
    t2.append_integer_point(b"g", &GroupElement::from_representative(Integer::from_u64(42)));
    let c2 = t2.challenge_scalar(b"c", 128);

    assert_eq!(c1.to_be_bytes(), c2.to_be_bytes());
}

#[test]
fn group_element_value_changes_challenge() {
    let mut t1 = fresh_transcript(b"group");
    t1.append_integer_point(b"g", &GroupElement::from_representative(Integer::from_u64(42)));
    let c1 = t1.challenge_scalar(b"c", 128);

    let mut t2 = fresh_transcript(b"group");
    t2.append_integer_point(b"g", &GroupElement::from_representative(Integer::from_u64(43)));
    let c2 = t2.challenge_scalar(b"c", 128);

    assert!(!c1.eq_value(&c2));
}

#[test]
fn curve_scalar_absorption_deterministic() {
    let mut t1 = fresh_transcript(b"scalar");
    t1.append_curve_scalar(b"s", &CurveScalar::from_limbs(vec![5, 6, 7, 8]));
    let c1 = t1.challenge_scalar(b"c", 128);

    let mut t2 = fresh_transcript(b"scalar");
    t2.append_curve_scalar(b"s", &CurveScalar::from_limbs(vec![5, 6, 7, 8]));
    let c2 = t2.challenge_scalar(b"c", 128);

    assert_eq!(c1.to_be_bytes(), c2.to_be_bytes());
}

#[test]
fn curve_point_equal_values_give_equal_challenges() {
    // Two independently constructed but equal affine points are absorbed
    // identically.
    let mut t1 = fresh_transcript(b"point");
    t1.append_curve_point(b"P", &generator_point());
    let c1 = t1.challenge_scalar(b"c", 128);

    let mut t2 = fresh_transcript(b"point");
    t2.append_curve_point(b"P", &generator_point());
    let c2 = t2.challenge_scalar(b"c", 128);

    assert_eq!(c1.to_be_bytes(), c2.to_be_bytes());
}

#[test]
fn agrees_with_raw_backend() {
    // The typed layer is a thin, canonical encoding over the backend: the
    // same absorption written by hand against merlin gives the same
    // challenge bytes.
    let mut t1 = fresh_transcript(b"raw");
    t1.append_integer_scalar(b"x", &Integer::from_u64(0x0102));
    let c1 = t1.challenge_scalar(b"c", 64);

    let mut t2 = merlin::Transcript::new(b"raw");
    t2.append_message(b"x", &[1, 2]);
    let mut buf = [0u8; 8];
    t2.challenge_bytes(b"c", &mut buf);

    assert_eq!(c1.to_be_bytes(), Integer::from_be_bytes(&buf).to_be_bytes());
}
