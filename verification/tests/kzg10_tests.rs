use kzg10::data_structures::{Commitment, Proof, Randomness, UniversalParams};
use kzg10::errors::SerializationError;
use kzg10::poly::Polynomial;
use kzg10::toy::{ToyEngine, CURVE_BOUND, GROUP_ORDER};

type E = ToyEngine;

fn sample_params() -> UniversalParams<E> {
    UniversalParams::<E>::new(
        vec![1u64, 2, 3, 4],
        vec![(0u64, 10u64), (2, 11), (3, 12)],
        4u64,
        5u64,
        vec![(1u64, 6u64), (7, 8)],
    )
}

#[test]
fn hiding_polynomial_degree_is_bound_plus_one() {
    assert_eq!(Randomness::<E>::calculate_hiding_polynomial_degree(0), 1);
    assert_eq!(Randomness::<E>::calculate_hiding_polynomial_degree(5), 6);
}

#[test]
fn max_degree_of_ten_powers_is_nine() {
    let params = UniversalParams::<E>::new(vec![0u64; 10], vec![], 1, 2, vec![]);
    assert_eq!(params.max_degree(), 9);
}

#[test]
fn verifier_key_projects_first_powers() {
    let params = sample_params();
    let vk = params.verifier_key();
    assert_eq!(vk.g, params.powers_of_g[0]);
    assert_eq!(vk.gamma_g, 10);
    assert_eq!(vk.h, 4);
    assert_eq!(vk.beta_h, 5);
    assert_eq!(vk.prepared_h, params.prepared_h);
    assert_eq!(vk.prepared_beta_h, params.prepared_beta_h);
}

#[test]
fn new_params_prepare_the_g2_fields() {
    let params = sample_params();
    // the toy engine's preparation transform is the identity
    assert_eq!(params.prepared_h, 4);
    assert_eq!(params.prepared_beta_h, 5);
    assert_eq!(params.prepared_neg_powers_of_h, vec![(1, 6), (7, 8)]);
}

#[test]
fn powers_view_truncates() {
    let params = sample_params();
    let powers = params.powers(2);
    assert_eq!(powers.powers_of_g, vec![1, 2, 3]);
    assert_eq!(powers.powers_of_gamma_g, vec![10, 11]);
    assert_eq!(powers.size(), 3);
}

#[test]
fn empty_commitment_is_identity_without_degree_bound() {
    let c = Commitment::<E>::empty();
    assert_eq!(c.0, 0);
    assert!(!c.has_degree_bound());
    let d: Commitment<E> = Default::default();
    assert_eq!(d.0, 0);
}

#[test]
fn subgroup_check_rejects_point_outside_subgroup() {
    let outside = Commitment::<E>(GROUP_ORDER);
    assert!(!outside.is_in_correct_subgroup_assuming_on_curve());
    let inside = Commitment::<E>(3);
    assert!(inside.is_in_correct_subgroup_assuming_on_curve());
}

#[test]
fn accumulation_is_order_independent() {
    let c1 = Commitment::<E>(5);
    let c2 = Commitment::<E>(7);
    let mut one_way = Commitment::<E>::empty();
    one_way.add_assign(&3, &c1);
    one_way.add_assign(&11, &c2);
    let mut other_way = Commitment::<E>::empty();
    other_way.add_assign(&11, &c2);
    other_way.add_assign(&3, &c1);
    assert_eq!(one_way.0, other_way.0);
    assert_eq!(one_way.0, 3 * 5 + 11 * 7);
}

#[test]
fn accumulating_unit_weight_onto_empty_gives_the_point() {
    let other = Commitment::<E>(42);
    let mut acc = Commitment::<E>::empty();
    acc.add_assign(&1, &other);
    assert_eq!(acc.0, 42);
}

#[test]
fn randomness_weighted_add_is_weighted_coefficient_sum() {
    let mut r1 = Randomness::<E> {
        blinding_polynomial: Polynomial::from_coefficients(vec![1, 2, 3]),
    };
    let r2 = Randomness::<E> {
        blinding_polynomial: Polynomial::from_coefficients(vec![10, 20]),
    };
    r1.add_assign_weighted(&7, &r2);
    assert_eq!(r1.blinding_polynomial.coeffs, vec![71, 142, 3]);
}

#[test]
fn randomness_plain_add_is_coefficient_sum() {
    let r1 = Randomness::<E> {
        blinding_polynomial: Polynomial::from_coefficients(vec![1, 2, 3]),
    };
    let r2 = Randomness::<E> {
        blinding_polynomial: Polynomial::from_coefficients(vec![10, 20]),
    };
    let sum = r1.add(&r2);
    assert_eq!(sum.blinding_polynomial.coeffs, vec![11, 22, 3]);
}

#[test]
fn randomness_add_trims_cancelled_leading_coefficients() {
    let mut r1 = Randomness::<E> {
        blinding_polynomial: Polynomial::from_coefficients(vec![9, 1u64 << 63]),
    };
    let r2 = Randomness::<E> {
        blinding_polynomial: Polynomial::from_coefficients(vec![0, 1u64 << 63]),
    };
    // the leading coefficients sum to zero in the toy scalar field
    r1.add_assign(&r2);
    assert_eq!(r1.blinding_polynomial.coeffs, vec![9]);
}

#[test]
fn is_hiding_iff_blinding_polynomial_nonzero() {
    let empty = Randomness::<E>::empty();
    assert!(!empty.is_hiding());
    let constant = Randomness::<E> {
        blinding_polynomial: Polynomial::from_coefficients(vec![1]),
    };
    assert!(constant.is_hiding());
    let zeros = Randomness::<E> {
        blinding_polynomial: Polynomial::from_coefficients(vec![0, 0]),
    };
    assert!(!zeros.is_hiding());
}

#[test]
fn rand_draws_a_polynomial_of_the_hiding_degree() {
    let r = Randomness::<E>::rand(1, false, vec![5, 6, 7]);
    assert_eq!(r.blinding_polynomial.coeffs, vec![5, 6, 7]);
    let trimmed = Randomness::<E>::rand(0, false, vec![5, 0]);
    assert_eq!(trimmed.blinding_polynomial.coeffs, vec![5]);
}

#[test]
fn commitment_round_trip() {
    let c = Commitment::<E>(123);
    let bytes = c.to_bytes();
    assert_eq!(bytes.len(), 8);
    let back = Commitment::<E>::from_bytes(&bytes).unwrap();
    assert_eq!(back.0, 123);
    let d = Commitment::<E>::default();
    let back = Commitment::<E>::from_bytes(&d.to_bytes()).unwrap();
    assert_eq!(back.0, 0);
}

#[test]
fn proof_round_trip_with_and_without_blinding() {
    let hiding = Proof::<E> { w: 77, random_v: Some(99) };
    let back = Proof::<E>::from_bytes(&hiding.to_bytes()).unwrap();
    assert_eq!(back.w, 77);
    assert_eq!(back.random_v, Some(99));
    let plain = Proof::<E> { w: 77, random_v: None };
    let back = Proof::<E>::from_bytes(&plain.to_bytes()).unwrap();
    assert_eq!(back.w, 77);
    assert_eq!(back.random_v, None);
}

#[test]
fn randomness_round_trip() {
    let r = Randomness::<E> {
        blinding_polynomial: Polynomial::from_coefficients(vec![4, 5, 6]),
    };
    let back = Randomness::<E>::from_bytes(&r.to_bytes()).unwrap();
    assert_eq!(back.blinding_polynomial.coeffs, vec![4, 5, 6]);
    let empty = Randomness::<E>::empty();
    let back = Randomness::<E>::from_bytes(&empty.to_bytes()).unwrap();
    assert!(back.blinding_polynomial.coeffs.is_empty());
}

#[test]
fn verifier_key_round_trip() {
    let vk = sample_params().verifier_key();
    let back = kzg10::data_structures::VerifierKey::<E>::from_bytes(&vk.to_bytes()).unwrap();
    assert_eq!(back.g, vk.g);
    assert_eq!(back.gamma_g, vk.gamma_g);
    assert_eq!(back.h, vk.h);
    assert_eq!(back.beta_h, vk.beta_h);
    assert_eq!(back.prepared_h, vk.prepared_h);
    assert_eq!(back.prepared_beta_h, vk.prepared_beta_h);
}

#[test]
fn params_round_trip() {
    let params = sample_params();
    let back = UniversalParams::<E>::from_bytes(&params.to_bytes()).unwrap();
    assert_eq!(back.powers_of_g, params.powers_of_g);
    assert_eq!(back.powers_of_gamma_g, params.powers_of_gamma_g);
    assert_eq!(back.h, params.h);
    assert_eq!(back.beta_h, params.beta_h);
    assert_eq!(back.prepared_neg_powers_of_h, params.prepared_neg_powers_of_h);
    assert_eq!(back.prepared_h, params.prepared_h);
    assert_eq!(back.prepared_beta_h, params.prepared_beta_h);
}

#[test]
fn params_round_trip_with_empty_tables() {
    let params = UniversalParams::<E>::new(vec![9u64], vec![], 1, 2, vec![]);
    let back = UniversalParams::<E>::from_bytes(&params.to_bytes()).unwrap();
    assert_eq!(back.powers_of_g, vec![9]);
    assert!(back.powers_of_gamma_g.is_empty());
    assert!(back.prepared_neg_powers_of_h.is_empty());
}

#[test]
fn every_truncation_of_a_valid_stream_is_rejected() {
    let commitment_bytes = Commitment::<E>(123).to_bytes();
    for m in 0..commitment_bytes.len() {
        assert!(Commitment::<E>::from_bytes(&commitment_bytes[..m]).is_err());
    }
    let proof_bytes = Proof::<E> { w: 77, random_v: Some(99) }.to_bytes();
    for m in 0..proof_bytes.len() {
        assert!(Proof::<E>::from_bytes(&proof_bytes[..m]).is_err());
    }
    let randomness_bytes = Randomness::<E> {
        blinding_polynomial: Polynomial::from_coefficients(vec![4, 5, 6]),
    }
    .to_bytes();
    for m in 0..randomness_bytes.len() {
        assert!(Randomness::<E>::from_bytes(&randomness_bytes[..m]).is_err());
    }
    let vk_bytes = sample_params().verifier_key().to_bytes();
    for m in 0..vk_bytes.len() {
        assert!(kzg10::data_structures::VerifierKey::<E>::from_bytes(&vk_bytes[..m]).is_err());
    }
    let params_bytes = sample_params().to_bytes();
    for m in 0..params_bytes.len() {
        assert!(UniversalParams::<E>::from_bytes(&params_bytes[..m]).is_err());
    }
}

#[test]
fn decode_reports_end_of_input() {
    assert!(matches!(
        Commitment::<E>::from_bytes(&[]),
        Err(SerializationError::UnexpectedEndOfInput)
    ));
}

#[test]
fn decode_reports_point_not_on_curve() {
    let bytes = [0xFFu8; 8];
    assert!(matches!(
        Commitment::<E>::from_bytes(&bytes),
        Err(SerializationError::PointNotOnCurve)
    ));
}

#[test]
fn decode_reports_wrong_subgroup() {
    // a point on the toy curve but outside the prime-order subgroup
    let bytes = GROUP_ORDER.to_le_bytes();
    assert!(matches!(
        Commitment::<E>::from_bytes(&bytes),
        Err(SerializationError::NotInCorrectSubgroup)
    ));
    assert!(GROUP_ORDER < CURVE_BOUND);
}

#[test]
fn decode_reports_trailing_bytes() {
    let mut bytes = Commitment::<E>(123).to_bytes();
    bytes.push(0);
    assert!(matches!(
        Commitment::<E>::from_bytes(&bytes),
        Err(SerializationError::TrailingBytes)
    ));
}

#[test]
fn decode_reports_inconsistent_coefficient_count() {
    // a count of five coefficients with no coefficient data behind it
    let bytes = 5u64.to_le_bytes();
    assert!(matches!(
        Randomness::<E>::from_bytes(&bytes),
        Err(SerializationError::InvalidLength)
    ));
}

#[test]
fn decode_reports_inconsistent_table_count() {
    let mut bytes = sample_params().to_bytes();
    // corrupt the hiding-table count, which sits after the power table
    let gamma_count_at = 8 + 8 * 4;
    for b in &mut bytes[gamma_count_at..gamma_count_at + 8] {
        *b = 0xFF;
    }
    assert!(matches!(
        UniversalParams::<E>::from_bytes(&bytes),
        Err(SerializationError::InvalidCount)
    ));
}

#[test]
fn decode_reports_bad_presence_flag() {
    let mut bytes = 77u64.to_le_bytes().to_vec();
    bytes.push(2);
    assert!(matches!(
        Proof::<E>::from_bytes(&bytes),
        Err(SerializationError::InvalidCount)
    ));
}

#[test]
fn default_proof_is_identity_with_no_blinding() {
    let p: Proof<E> = Default::default();
    assert_eq!(p.w, 0);
    assert_eq!(p.random_v, None);
    let r: Randomness<E> = Default::default();
    assert!(!r.is_hiding());
}
