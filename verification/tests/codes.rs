use ternary_codes::{
    error_correction_capacity, error_detection_capacity, hamming_distance, lee_distance,
    lee_distance_codeword, majority_vote, minimum_distance, parity_check, parity_encode,
    parity_verify, ternary_parity, weight, RepetitionCode, Ternary,
};

fn t(v: i8) -> Ternary {
    Ternary::from_i8(v).unwrap()
}

// ── Ternary mod-3 arithmetic ──
#[test]
fn test_add_mod3() {
    assert_eq!(Ternary::add_mod3(t(0), t(0)), t(0));
    assert_eq!(Ternary::add_mod3(t(1), t(1)), t(-1)); // 1+1=2 → -1
    assert_eq!(Ternary::add_mod3(t(-1), t(1)), t(0));
    assert_eq!(Ternary::add_mod3(t(-1), t(-1)), t(1)); // 2+2=4%3=1 → 1
}

#[test]
fn test_sub_mod3() {
    assert_eq!(Ternary::sub_mod3(t(1), t(1)), t(0));
    assert_eq!(Ternary::sub_mod3(t(0), t(1)), t(-1));
}

// ── Repetition Code ──
#[test]
fn repetition_encode_decode() {
    let code = RepetitionCode::new(5);
    let data = vec![t(1), t(-1), t(0)];
    let encoded = code.encode(&data);
    assert_eq!(encoded.len(), 15);
    let decoded = code.decode(&encoded).unwrap();
    assert_eq!(decoded, data);
}

#[test]
fn repetition_correct_errors() {
    let code = RepetitionCode::new(5);
    let data = vec![t(1)];
    let mut encoded = code.encode(&data);
    // Introduce 2 errors (within capacity of 2)
    encoded[0] = t(-1);
    encoded[1] = t(0);
    let decoded = code.decode(&encoded).unwrap();
    assert_eq!(decoded, vec![t(1)]);
}

#[test]
fn repetition_error_capacity() {
    let code = RepetitionCode::new(5);
    assert_eq!(code.error_capacity(), 2);
    let code3 = RepetitionCode::new(3);
    assert_eq!(code3.error_capacity(), 1);
}

// ── Parity ──
#[test]
fn parity_encode_verify() {
    let data = vec![t(1), t(1), t(-1)];
    let encoded = parity_encode(&data);
    assert!(parity_verify(&encoded));
}

#[test]
fn parity_detect_error() {
    let data = vec![t(1), t(-1), t(0)];
    let mut encoded = parity_encode(&data);
    encoded[0] = t(0); // introduce error
    assert!(!parity_verify(&encoded));
}

#[test]
fn ternary_parity_all_zero() {
    let data = vec![t(0), t(0), t(0)];
    assert_eq!(ternary_parity(&data), t(0));
}

#[test]
fn parity_check_basic() {
    let data = vec![t(1), t(1), t(1)];
    let parity = -ternary_parity(&data);
    assert!(parity_check(&data, parity));
}

// ── Hamming Distance ──
#[test]
fn hamming_distance_basic() {
    let a = vec![t(1), t(0), t(-1)];
    let b = vec![t(1), t(0), t(-1)];
    assert_eq!(hamming_distance(&a, &b), Some(0));

    let c = vec![t(-1), t(0), t(1)];
    assert_eq!(hamming_distance(&a, &c), Some(2));
}

#[test]
fn hamming_distance_different_lengths() {
    let a = vec![t(1)];
    let b = vec![t(1), t(0)];
    assert_eq!(hamming_distance(&a, &b), None);
}

#[test]
fn minimum_distance_codebook() {
    let codebook = vec![
        vec![t(1), t(1), t(1)],
        vec![t(-1), t(-1), t(-1)],
        vec![t(0), t(0), t(0)],
    ];
    assert_eq!(minimum_distance(&codebook), Some(3));
}

#[test]
fn error_correction_detection() {
    assert_eq!(error_correction_capacity(3), 1);
    assert_eq!(error_detection_capacity(3), 2);
    assert_eq!(error_correction_capacity(5), 2);
}

// ── Lee Distance ──
#[test]
fn lee_distance_values() {
    assert_eq!(lee_distance(t(0), t(0)), 0);
    assert_eq!(lee_distance(t(1), t(0)), 1);
    assert_eq!(lee_distance(t(-1), t(1)), 1); // circular
    assert_eq!(lee_distance(t(-1), t(0)), 1);
}

#[test]
fn lee_distance_codeword_basic() {
    let a = vec![t(1), t(0)];
    let b = vec![t(0), t(0)];
    assert_eq!(lee_distance_codeword(&a, &b), Some(1));
}

#[test]
fn weight_test() {
    assert_eq!(weight(&[t(1), t(0), t(-1), t(0)]), 2);
    assert_eq!(weight(&[t(0), t(0)]), 0);
}

// ── Majority Vote ──
#[test]
fn majority_vote_test() {
    assert_eq!(majority_vote(&[t(1), t(1), t(-1)]), Ternary::Pos);
    assert_eq!(majority_vote(&[t(-1), t(-1), t(1)]), Ternary::Neg);
    assert_eq!(majority_vote(&[t(1), t(-1), t(0)]), Ternary::Zero); // tie
}

#[test]
fn minimum_distance_too_few() {
    assert_eq!(minimum_distance(&[vec![t(1)]]), None);
    assert_eq!(minimum_distance(&[]), None);
}
