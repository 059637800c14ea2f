use ternary_codes::{
    error_correction_capacity, error_detection_capacity, hamming_distance, lee_distance,
    lee_distance_codeword, majority_vote, minimum_distance, parity_check, parity_encode,
    parity_verify, ternary_parity, weight, DecodeError, RepetitionCode, Ternary, TernaryHamming,
};

const ALL: [Ternary; 3] = [Ternary::Neg, Ternary::Zero, Ternary::Pos];

#[test]
fn from_i8_rejects_other_values() {
    assert_eq!(Ternary::from_i8(-1), Some(Ternary::Neg));
    assert_eq!(Ternary::from_i8(0), Some(Ternary::Zero));
    assert_eq!(Ternary::from_i8(1), Some(Ternary::Pos));
    assert_eq!(Ternary::from_i8(2), None);
    assert_eq!(Ternary::from_i8(-2), None);
    assert_eq!(Ternary::from_i8(i8::MIN), None);
    assert_eq!(Ternary::from_i8(i8::MAX), None);
}

#[test]
fn i8_roundtrip() {
    for a in ALL {
        assert_eq!(Ternary::from_i8(a.to_i8()), Some(a));
    }
    assert_eq!(Ternary::Neg.to_i8(), -1);
    assert_eq!(Ternary::Pos.to_i8(), 1);
}

#[test]
fn negation() {
    assert_eq!(-Ternary::Neg, Ternary::Pos);
    assert_eq!(-Ternary::Zero, Ternary::Zero);
    assert_eq!(-Ternary::Pos, Ternary::Neg);
}

#[test]
fn gf3_field_laws() {
    for a in ALL {
        assert_eq!(Ternary::add_mod3(a, Ternary::Zero), a);
        assert_eq!(Ternary::add_mod3(a, -a), Ternary::Zero);
        assert_eq!(Ternary::sub_mod3(a, a), Ternary::Zero);
        for b in ALL {
            assert_eq!(Ternary::add_mod3(a, b), Ternary::add_mod3(b, a));
            assert_eq!(Ternary::sub_mod3(a, b), Ternary::add_mod3(a, -b));
            assert_eq!(Ternary::add_mod3(Ternary::sub_mod3(a, b), b), a);
            for c in ALL {
                assert_eq!(
                    Ternary::add_mod3(Ternary::add_mod3(a, b), c),
                    Ternary::add_mod3(a, Ternary::add_mod3(b, c))
                );
            }
        }
    }
}

#[test]
fn sub_mod3_wraps() {
    assert_eq!(Ternary::sub_mod3(Ternary::Neg, Ternary::Pos), Ternary::Pos); // 2 - 1 = 1
    assert_eq!(Ternary::sub_mod3(Ternary::Pos, Ternary::Neg), Ternary::Neg); // 1 - 2 = -1 = 2
    assert_eq!(Ternary::sub_mod3(Ternary::Zero, Ternary::Neg), Ternary::Pos); // 0 - 2 = 1
}

#[test]
fn hamming_code_dimensions() {
    let code = TernaryHamming::new(2);
    assert_eq!((code.n(), code.k(), code.r()), (4, 2, 2));
    let code3 = TernaryHamming::new(3);
    assert_eq!((code3.n(), code3.k(), code3.r()), (13, 10, 3));
}

#[test]
fn hamming_encode_is_systematic() {
    let code = TernaryHamming::new(2);
    let data = vec![Ternary::Pos, Ternary::Zero];
    assert_eq!(
        code.encode(&data),
        vec![Ternary::Pos, Ternary::Zero, Ternary::Neg, Ternary::Neg]
    );
    assert_eq!(
        code.encode(&[Ternary::Zero, Ternary::Pos]),
        vec![Ternary::Zero, Ternary::Pos, Ternary::Neg, Ternary::Pos]
    );
    let code3 = TernaryHamming::new(3);
    let data3: Vec<Ternary> = [1i8, 0, -1, 0, 1, 1, 0, 0, -1, 1]
        .iter()
        .map(|&v| Ternary::from_i8(v).unwrap())
        .collect();
    let expected: Vec<Ternary> = [1i8, 0, -1, 0, 1, 1, 0, 0, -1, 1, -1, 0, 1]
        .iter()
        .map(|&v| Ternary::from_i8(v).unwrap())
        .collect();
    assert_eq!(code3.encode(&data3), expected);
}

#[test]
fn hamming_zero_word_roundtrip() {
    let code = TernaryHamming::new(3);
    let data = vec![Ternary::Zero; 10];
    let encoded = code.encode(&data);
    assert_eq!(encoded, vec![Ternary::Zero; 13]);
    assert_eq!(code.decode(&encoded), Ok(data));
}

#[test]
fn hamming_corrects_single_error_in_zero_word() {
    let code = TernaryHamming::new(2);
    let received = vec![Ternary::Zero, Ternary::Pos, Ternary::Zero, Ternary::Zero];
    assert_eq!(code.decode(&received), Ok(vec![Ternary::Zero, Ternary::Zero]));
    let received = vec![Ternary::Zero, Ternary::Neg, Ternary::Zero, Ternary::Zero];
    assert_eq!(code.decode(&received), Ok(vec![Ternary::Zero, Ternary::Zero]));
    let code3 = TernaryHamming::new(3);
    for pos in 0..13 {
        let mut received3 = vec![Ternary::Zero; 13];
        received3[pos] = Ternary::Pos;
        assert_eq!(code3.decode(&received3), Ok(vec![Ternary::Zero; 10]));
    }
}

fn all_words(len: usize) -> Vec<Vec<Ternary>> {
    let mut words = vec![Vec::new()];
    for _ in 0..len {
        let mut next = Vec::new();
        for w in &words {
            for s in ALL {
                let mut v = w.clone();
                v.push(s);
                next.push(v);
            }
        }
        words = next;
    }
    words
}

#[test]
fn hamming_roundtrip_with_any_single_error() {
    for r in [2usize, 3] {
        let code = TernaryHamming::new(r);
        // every data word for r = 2, every 997th one for r = 3
        let step = if r == 2 { 1 } else { 997 };
        for data in all_words(code.k()).into_iter().step_by(step) {
            let encoded = code.encode(&data);
            assert_eq!(encoded.len(), code.n());
            assert_eq!(code.decode(&encoded), Ok(data.clone()));
            for pos in 0..code.n() {
                for s in ALL {
                    let mut received = encoded.clone();
                    received[pos] = s;
                    assert_eq!(code.decode(&received), Ok(data.clone()));
                }
            }
        }
    }
}

#[test]
fn hamming_minimum_distance_is_three() {
    let code = TernaryHamming::new(2);
    let codebook: Vec<Vec<Ternary>> = all_words(code.k()).iter().map(|d| code.encode(d)).collect();
    assert_eq!(minimum_distance(&codebook), Some(3));
}

#[test]
fn hamming_decode_errors() {
    let code = TernaryHamming::new(2);
    assert_eq!(code.decode(&[Ternary::Zero; 3]), Err(DecodeError::InvalidLength));
    assert_eq!(code.decode(&[Ternary::Zero; 5]), Err(DecodeError::InvalidLength));
    assert_eq!(code.decode(&[]), Err(DecodeError::InvalidLength));
    // The code is perfect: every word of the block length decodes.
    for w in all_words(4) {
        assert!(code.decode(&w).is_ok());
    }
    let received = [Ternary::Pos, Ternary::Pos, Ternary::Neg, Ternary::Neg];
    assert_eq!(code.decode(&received), Ok(vec![Ternary::Pos, Ternary::Zero]));
}

#[test]
fn repetition_roundtrip_various_factors() {
    let data = vec![Ternary::Pos, Ternary::Zero, Ternary::Neg, Ternary::Pos];
    for f in 3..8usize {
        let code = RepetitionCode::new(f);
        assert_eq!(code.repeat_factor(), f);
        let encoded = code.encode(&data);
        assert_eq!(encoded.len(), data.len() * f);
        for (x, s) in encoded.iter().enumerate() {
            assert_eq!(*s, data[x / f]);
        }
        assert_eq!(code.decode(&encoded), Ok(data.clone()));
    }
}

#[test]
fn repetition_empty_and_invalid_length() {
    let code = RepetitionCode::new(3);
    assert_eq!(code.encode(&[]), Vec::<Ternary>::new());
    assert_eq!(code.decode(&[]), Ok(Vec::new()));
    assert_eq!(code.decode(&[Ternary::Pos; 4]), Err(DecodeError::InvalidLength));
    assert_eq!(code.decode(&[Ternary::Pos; 2]), Err(DecodeError::InvalidLength));
}

#[test]
fn repetition_corrects_up_to_capacity_in_every_group() {
    let code = RepetitionCode::new(7);
    assert_eq!(code.error_capacity(), 3);
    let data = vec![Ternary::Neg, Ternary::Zero, Ternary::Pos];
    let mut received = code.encode(&data);
    // three errors in each group of seven
    for g in 0..3 {
        received[g * 7] = Ternary::Pos;
        received[g * 7 + 3] = Ternary::Zero;
        received[g * 7 + 6] = Ternary::Neg;
    }
    assert_eq!(code.decode(&received), Ok(data));
}

#[test]
fn repetition_beyond_capacity_gives_tie() {
    let code = RepetitionCode::new(3);
    let received = vec![Ternary::Pos, Ternary::Neg, Ternary::Zero];
    assert_eq!(code.decode(&received), Ok(vec![Ternary::Zero]));
}

#[test]
fn majority_vote_edges() {
    assert_eq!(majority_vote(&[]), Ternary::Zero);
    assert_eq!(majority_vote(&[Ternary::Neg]), Ternary::Neg);
    assert_eq!(majority_vote(&[Ternary::Pos, Ternary::Pos, Ternary::Neg, Ternary::Neg]), Ternary::Zero);
    assert_eq!(majority_vote(&[Ternary::Zero, Ternary::Zero, Ternary::Pos]), Ternary::Zero);
    assert_eq!(
        majority_vote(&[Ternary::Pos, Ternary::Zero, Ternary::Pos, Ternary::Neg]),
        Ternary::Pos
    );
}

#[test]
fn parity_values() {
    assert_eq!(ternary_parity(&[]), Ternary::Zero);
    assert_eq!(ternary_parity(&[Ternary::Pos, Ternary::Pos]), Ternary::Neg);
    assert_eq!(ternary_parity(&[Ternary::Neg, Ternary::Neg]), Ternary::Pos);
    assert_eq!(
        parity_encode(&[Ternary::Pos, Ternary::Pos]),
        vec![Ternary::Pos, Ternary::Pos, Ternary::Pos]
    );
    assert_eq!(parity_encode(&[]), vec![Ternary::Zero]);
    assert!(parity_verify(&[]));
    assert!(parity_verify(&[Ternary::Zero]));
    assert!(!parity_verify(&[Ternary::Pos]));
    assert!(!parity_check(&[Ternary::Pos], Ternary::Pos));
    assert!(parity_check(&[Ternary::Pos], Ternary::Neg));
}

#[test]
fn parity_detects_every_single_error() {
    let data = vec![Ternary::Pos, Ternary::Neg, Ternary::Zero, Ternary::Pos];
    let encoded = parity_encode(&data);
    assert!(parity_verify(&encoded));
    for i in 0..encoded.len() {
        for s in ALL {
            if s != encoded[i] {
                let mut changed = encoded.clone();
                changed[i] = s;
                assert!(!parity_verify(&changed));
            }
        }
    }
}

#[test]
fn parity_misses_two_cancelling_errors() {
    // Two errors of opposite sign leave the sum unchanged.
    let encoded = parity_encode(&[Ternary::Pos, Ternary::Neg]);
    assert_eq!(encoded, vec![Ternary::Pos, Ternary::Neg, Ternary::Zero]);
    assert!(parity_verify(&[Ternary::Zero, Ternary::Zero, Ternary::Zero]));
}

#[test]
fn distance_laws_on_values() {
    let a = [Ternary::Pos, Ternary::Zero, Ternary::Neg, Ternary::Zero];
    let b = [Ternary::Neg, Ternary::Zero, Ternary::Pos, Ternary::Pos];
    let c = [Ternary::Zero, Ternary::Zero, Ternary::Neg, Ternary::Pos];
    let ab = hamming_distance(&a, &b).unwrap();
    assert_eq!(ab, 3);
    assert_eq!(hamming_distance(&b, &a), Some(ab));
    assert_eq!(hamming_distance(&a, &a), Some(0));
    let ac = hamming_distance(&a, &c).unwrap();
    let cb = hamming_distance(&c, &b).unwrap();
    assert!(ab <= ac + cb);
    // distance is the weight of the difference
    let diff: Vec<Ternary> = a.iter().zip(b.iter()).map(|(&x, &y)| Ternary::sub_mod3(x, y)).collect();
    assert_eq!(weight(&diff), ab);
    // weight is the distance from the zero word
    assert_eq!(weight(&a), hamming_distance(&a, &[Ternary::Zero; 4]).unwrap());
    // Lee distance equals Hamming distance over three symbols
    assert_eq!(lee_distance_codeword(&a, &b), Some(ab));
    assert_eq!(lee_distance_codeword(&a, &b[..3]), None);
    for x in ALL {
        for y in ALL {
            assert_eq!(lee_distance(x, y), lee_distance(y, x));
            assert_eq!(lee_distance(x, y), if x == y { 0 } else { 1 });
        }
    }
}

#[test]
fn minimum_distance_mixed_lengths() {
    let codebook = vec![
        vec![Ternary::Pos, Ternary::Pos],
        vec![Ternary::Pos],
        vec![Ternary::Neg, Ternary::Pos],
        vec![Ternary::Zero],
    ];
    assert_eq!(minimum_distance(&codebook), Some(1));
    let unequal = vec![vec![Ternary::Pos], vec![Ternary::Pos, Ternary::Neg]];
    assert_eq!(minimum_distance(&unequal), None);
    let same = vec![vec![Ternary::Neg, Ternary::Zero], vec![Ternary::Neg, Ternary::Zero]];
    assert_eq!(minimum_distance(&same), Some(0));
}

#[test]
fn capacities() {
    assert_eq!(error_correction_capacity(1), 0);
    assert_eq!(error_detection_capacity(1), 0);
    assert_eq!(error_correction_capacity(4), 1);
    assert_eq!(error_detection_capacity(7), 6);
    for d in 1..20usize {
        assert!(2 * error_correction_capacity(d) + 1 <= d);
    }
}
