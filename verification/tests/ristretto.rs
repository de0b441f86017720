use curve25519_dalek::constants::RISTRETTO_BASEPOINT_POINT;
use curve25519_dalek::scalar::Scalar;
use secret_sharing_extra::{
    from_bigint, new_random, FieldScalar, GroupElement, RistrettoElement, RistrettoScalar,
    VerifiableSecretSharingRistretto, VssError,
};

fn scalar(n: u8) -> RistrettoScalar {
    RistrettoScalar::from_byte(n)
}

/// The order of the group, little-endian.
const ORDER_LE: [u8; 32] = [
    0xed, 0xd3, 0xf5, 0x5c, 0x1a, 0x63, 0x12, 0x58, 0xd6, 0x9c, 0xf7, 0xa2, 0xde, 0xf9, 0xde, 0x14,
    0, 0, 0, 0, 0, 0, 0, 0, 0, 0, 0, 0, 0, 0, 0, 0x10,
];

/// The compressed Ristretto basepoint.
const BASEPOINT: [u8; 32] = [
    0xe2, 0xf2, 0xae, 0x0a, 0x6a, 0xbc, 0x4e, 0x71, 0xa8, 0x84, 0xa9, 0x61, 0xc5, 0x00, 0x51, 0x5f,
    0x58, 0xe3, 0x0b, 0x6a, 0xa5, 0x82, 0xdd, 0x8d, 0xb6, 0xa6, 0x59, 0x45, 0xe0, 0x8d, 0x2d, 0x76,
];

#[test]
fn feldman_vss_test_integration() {
    let secret = new_random().unwrap();
    let vss = VerifiableSecretSharingRistretto {
        threshold: 50,
        share_amount: 256,
    };
    let (shares, commitments) = vss.split(&secret).unwrap();
    let sub_shares = &shares[0..50];
    let recovered = vss.recover(sub_shares).unwrap();
    assert_eq!(secret, recovered);
    for share in shares {
        assert!(vss.verify(share, &commitments).unwrap())
    }
}

#[test]
fn ristretto_three_of_five_scenario() {
    let vss = VerifiableSecretSharingRistretto { threshold: 3, share_amount: 5 };
    let secret = scalar(7);
    let (shares, commitments) = vss.split(&secret).unwrap();
    assert_eq!(shares.len(), 5);
    assert_eq!(commitments.len(), 3);
    for (i, share) in shares.iter().enumerate() {
        assert_eq!(share.0, i + 1);
    }
    for a in 0..5 {
        for b in (a + 1)..5 {
            for c in (b + 1)..5 {
                let chosen = [shares[a], shares[b], shares[c]];
                assert_eq!(vss.recover(&chosen).unwrap(), secret);
                for d in 0..5 {
                    if d != a && d != b && d != c {
                        assert_eq!(vss.verify(shares[d], &commitments), Ok(true));
                    }
                }
            }
        }
    }
    let (index, value) = shares[1];
    let forged = (index, value.plus(&RistrettoScalar::one()));
    assert_eq!(vss.verify(forged, &commitments), Ok(false));
}

#[test]
fn ristretto_recovery_ignores_order_of_shares() {
    let vss = VerifiableSecretSharingRistretto { threshold: 4, share_amount: 9 };
    let secret = new_random().unwrap();
    let (shares, _) = vss.split(&secret).unwrap();
    let chosen = [shares[8], shares[2], shares[5], shares[0]];
    assert_eq!(vss.recover(&chosen).unwrap(), secret);
    let chosen = [shares[3], shares[4], shares[6], shares[7]];
    assert_eq!(vss.recover(&chosen).unwrap(), secret);
}

#[test]
fn ristretto_wrong_share_count_is_refused() {
    let vss = VerifiableSecretSharingRistretto { threshold: 3, share_amount: 5 };
    let (shares, _) = vss.split(&scalar(7)).unwrap();
    assert_eq!(vss.recover(&shares[0..2]), Err(VssError::ShareCountMismatch));
    assert_eq!(vss.recover(&shares[0..0]), Err(VssError::ShareCountMismatch));
    assert_eq!(vss.recover(&shares[0..4]), Err(VssError::ShareCountMismatch));
    assert_eq!(vss.recover(&shares), Err(VssError::ShareCountMismatch));
}

#[test]
fn ristretto_duplicate_index_is_refused() {
    let vss = VerifiableSecretSharingRistretto { threshold: 3, share_amount: 5 };
    let (shares, _) = vss.split(&scalar(7)).unwrap();
    let twice = [shares[0], shares[1], shares[0]];
    assert_eq!(vss.recover(&twice), Err(VssError::DuplicateIndex));
    let same_index = [shares[0], shares[1], (shares[1].0, shares[2].1)];
    assert_eq!(vss.recover(&same_index), Err(VssError::DuplicateIndex));
}

#[test]
fn ristretto_index_out_of_range_is_refused() {
    let vss = VerifiableSecretSharingRistretto { threshold: 2, share_amount: 3 };
    let (shares, commitments) = vss.split(&scalar(9)).unwrap();
    let zero = (0, shares[0].1);
    let beyond = (4, shares[0].1);
    assert_eq!(vss.recover(&[zero, shares[1]]), Err(VssError::IndexOutOfRange));
    assert_eq!(vss.recover(&[shares[0], beyond]), Err(VssError::IndexOutOfRange));
    assert_eq!(vss.verify(zero, &commitments), Err(VssError::IndexOutOfRange));
    assert_eq!(vss.verify(beyond, &commitments), Err(VssError::IndexOutOfRange));
    assert_eq!(vss.verify_all(&[shares[0], beyond], &commitments), Err(VssError::IndexOutOfRange));
    // the range is looked at before the duplicates
    assert_eq!(vss.recover(&[zero, zero]), Err(VssError::IndexOutOfRange));
}

#[test]
fn ristretto_bad_configuration_is_refused() {
    let secret = scalar(1);
    for vss in [
        VerifiableSecretSharingRistretto { threshold: 0, share_amount: 5 },
        VerifiableSecretSharingRistretto { threshold: 6, share_amount: 5 },
        VerifiableSecretSharingRistretto { threshold: 0, share_amount: 0 },
    ] {
        assert_eq!(vss.split(&secret).err(), Some(VssError::Configuration));
        assert_eq!(vss.deal(&[secret]).err(), Some(VssError::Configuration));
        assert_eq!(vss.recover(&[]), Err(VssError::Configuration));
        assert_eq!(vss.recover(&[(1, secret)]), Err(VssError::Configuration));
        assert_eq!(vss.verify((1, secret), &[]), Err(VssError::Configuration));
        assert_eq!(vss.verify_all(&[], &[]), Err(VssError::Configuration));
    }
    let none = VerifiableSecretSharingRistretto { threshold: 0, share_amount: 5 };
    assert_eq!(none.sample_polynomial(&secret).err(), Some(VssError::Configuration));
}

#[test]
fn ristretto_commitment_length_mismatch_is_refused() {
    let vss = VerifiableSecretSharingRistretto { threshold: 3, share_amount: 5 };
    let (shares, commitments) = vss.split(&scalar(7)).unwrap();
    assert_eq!(vss.verify(shares[0], &commitments[0..2]), Err(VssError::CommitmentLengthMismatch));
    assert_eq!(vss.verify(shares[0], &[]), Err(VssError::CommitmentLengthMismatch));
    assert_eq!(vss.verify_all(&shares, &commitments[1..]), Err(VssError::CommitmentLengthMismatch));
    let mut longer = commitments.clone();
    longer.push(commitments[0]);
    assert_eq!(vss.verify(shares[0], &longer), Err(VssError::CommitmentLengthMismatch));
    // the commitments are looked at before the index
    assert_eq!(vss.verify((0, shares[0].1), &longer), Err(VssError::CommitmentLengthMismatch));
    assert_eq!(vss.deal(&[scalar(1), scalar(2)]).err(), Some(VssError::CommitmentLengthMismatch));
}

#[test]
fn ristretto_verify_all_accepts_a_dealing_and_rejects_a_forgery() {
    let vss = VerifiableSecretSharingRistretto { threshold: 3, share_amount: 6 };
    let (mut shares, commitments) = vss.split(&new_random().unwrap()).unwrap();
    assert_eq!(vss.verify_all(&shares, &commitments), Ok(true));
    assert_eq!(vss.verify_all(&[], &commitments), Ok(true));
    shares[4].1 = shares[4].1.plus(&scalar(3));
    assert_eq!(vss.verify_all(&shares, &commitments), Ok(false));
    assert_eq!(vss.verify(shares[4], &commitments), Ok(false));
    assert_eq!(vss.verify_all(&shares[0..4], &commitments), Ok(true));
}

#[test]
fn ristretto_shares_with_swapped_values_are_rejected() {
    let vss = VerifiableSecretSharingRistretto { threshold: 2, share_amount: 4 };
    let (shares, commitments) = vss.split(&new_random().unwrap()).unwrap();
    assert_eq!(vss.verify((shares[0].0, shares[1].1), &commitments), Ok(false));
    assert_eq!(vss.verify((shares[3].0, shares[2].1), &commitments), Ok(false));
}

#[test]
fn ristretto_commitments_of_another_dealing_reject() {
    let vss = VerifiableSecretSharingRistretto { threshold: 3, share_amount: 5 };
    let secret = scalar(7);
    let (shares, _) = vss.split(&secret).unwrap();
    let (_, others) = vss.split(&secret).unwrap();
    assert_eq!(vss.verify(shares[0], &others), Ok(false));
    assert_eq!(vss.verify_all(&shares, &others), Ok(false));
}

#[test]
fn ristretto_two_splits_differ_and_both_hold() {
    let vss = VerifiableSecretSharingRistretto { threshold: 3, share_amount: 5 };
    let secret = scalar(42);
    let (first, first_commitments) = vss.split(&secret).unwrap();
    let (second, second_commitments) = vss.split(&secret).unwrap();
    assert_ne!(first, second);
    assert!(!first_commitments[1].same(&second_commitments[1]));
    assert!(first_commitments[0].same(&second_commitments[0]));
    assert_eq!(vss.recover(&first[1..4]).unwrap(), secret);
    assert_eq!(vss.recover(&second[2..5]).unwrap(), secret);
    assert_eq!(vss.verify_all(&first, &first_commitments), Ok(true));
    assert_eq!(vss.verify_all(&second, &second_commitments), Ok(true));
}

#[test]
fn ristretto_polynomial_values_are_exact() {
    let vss = VerifiableSecretSharingRistretto { threshold: 3, share_amount: 4 };
    // 7 + 2 x + 3 x^2
    let polynomial = [scalar(7), scalar(2), scalar(3)];
    assert_eq!(vss.mod_evaluate_at(&polynomial, 0), scalar(7));
    assert_eq!(vss.mod_evaluate_at(&polynomial, 1), scalar(12));
    assert_eq!(vss.mod_evaluate_at(&polynomial, 2), scalar(23));
    assert_eq!(vss.mod_evaluate_at(&polynomial, 5), scalar(92));
    assert_eq!(vss.mod_evaluate_at(&polynomial, 300), from_bigint(&[0x04, 0x21, 0x0f]));
    assert_eq!(vss.mod_evaluate_at(&[], 3), RistrettoScalar::zero());
    let shares = vss.evaluate_polynomial(&polynomial);
    assert_eq!(shares, vec![(1, scalar(12)), (2, scalar(23)), (3, scalar(40)), (4, scalar(63))]);
    assert_eq!(vss.recover(&shares[1..4]).unwrap(), scalar(7));
}

#[test]
fn ristretto_dealing_from_a_given_polynomial() {
    let vss = VerifiableSecretSharingRistretto { threshold: 2, share_amount: 3 };
    let polynomial = [scalar(5), scalar(10)];
    let (shares, commitments) = vss.deal(&polynomial).unwrap();
    assert_eq!(shares, vec![(1, scalar(15)), (2, scalar(25)), (3, scalar(35))]);
    assert_eq!(commitments.len(), 2);
    assert!(commitments[0].same(&RistrettoElement::commit(&scalar(5))));
    assert!(commitments[1].same(&RistrettoElement::commit(&scalar(10))));
    let again = VerifiableSecretSharingRistretto::generate_commitments(&polynomial);
    assert_eq!(again.len(), 2);
    assert_eq!(again[0].to_bytes(), commitments[0].to_bytes());
    assert_eq!(again[1].to_bytes(), commitments[1].to_bytes());
    assert_eq!(vss.verify_all(&shares, &commitments), Ok(true));
    assert_eq!(vss.verify((2, scalar(26)), &commitments), Ok(false));
    assert_eq!(vss.recover(&[shares[2], shares[0]]).unwrap(), scalar(5));
}

#[test]
fn ristretto_interpolation_at_other_points() {
    let vss = VerifiableSecretSharingRistretto { threshold: 3, share_amount: 9 };
    // 7 + 2 x + 3 x^2 at 1, 2, 4
    let xs = [1usize, 2, 4];
    let ys = [scalar(12), scalar(23), scalar(63)];
    assert_eq!(vss.lagrange_interpolation(scalar(0), &xs, &ys), Ok(scalar(7)));
    assert_eq!(vss.lagrange_interpolation(scalar(3), &xs, &ys), Ok(scalar(40)));
    assert_eq!(vss.lagrange_interpolation(scalar(5), &xs, &ys), Ok(scalar(92)));
    assert_eq!(vss.lagrange_interpolation(scalar(2), &xs, &ys), Ok(scalar(23)));
    assert_eq!(
        vss.lagrange_interpolation(scalar(0), &[1, 2, 1], &ys),
        Err(VssError::DuplicateIndex)
    );
    assert_eq!(vss.lagrange_interpolation(scalar(9), &[], &[]), Ok(scalar(0)));
    assert_eq!(vss.lagrange_interpolation(scalar(9), &[6], &[scalar(4)]), Ok(scalar(4)));
}

#[test]
fn ristretto_threshold_of_one_hands_out_the_secret() {
    let vss = VerifiableSecretSharingRistretto { threshold: 1, share_amount: 3 };
    let secret = new_random().unwrap();
    let polynomial = vss.sample_polynomial(&secret).unwrap();
    assert_eq!(polynomial, vec![secret]);
    let (shares, commitments) = vss.split(&secret).unwrap();
    assert_eq!(shares, vec![(1, secret), (2, secret), (3, secret)]);
    assert_eq!(commitments.len(), 1);
    assert_eq!(vss.recover(&shares[2..3]).unwrap(), secret);
    assert_eq!(vss.verify_all(&shares, &commitments), Ok(true));
}

#[test]
fn ristretto_threshold_equal_to_share_amount() {
    let vss = VerifiableSecretSharingRistretto { threshold: 4, share_amount: 4 };
    let secret = new_random().unwrap();
    let (shares, commitments) = vss.split(&secret).unwrap();
    assert_eq!(vss.recover(&shares).unwrap(), secret);
    assert_eq!(vss.verify_all(&shares, &commitments), Ok(true));
    let single = VerifiableSecretSharingRistretto { threshold: 1, share_amount: 1 };
    let (shares, commitments) = single.split(&secret).unwrap();
    assert_eq!(single.recover(&shares).unwrap(), secret);
    assert_eq!(single.verify(shares[0], &commitments), Ok(true));
}

#[test]
fn ristretto_secret_zero() {
    let vss = VerifiableSecretSharingRistretto { threshold: 3, share_amount: 5 };
    let secret = RistrettoScalar::zero();
    let (shares, commitments) = vss.split(&secret).unwrap();
    assert_eq!(commitments[0].to_bytes(), [0u8; 32]);
    assert_eq!(vss.recover(&shares[2..5]).unwrap(), secret);
    assert_eq!(vss.verify_all(&shares, &commitments), Ok(true));
}

#[test]
fn ristretto_sample_polynomial_starts_with_the_secret() {
    let vss = VerifiableSecretSharingRistretto { threshold: 5, share_amount: 7 };
    let secret = scalar(99);
    let polynomial = vss.sample_polynomial(&secret).unwrap();
    assert_eq!(polynomial.len(), 5);
    assert_eq!(polynomial[0], secret);
    assert_ne!(polynomial[1], polynomial[2]);
}

#[test]
fn ristretto_new_random_gives_different_scalars() {
    let a = new_random().unwrap();
    let b = new_random().unwrap();
    assert_ne!(a, b);
    assert!(!a.equals(&b));
    assert!(a.equals(&a));
}

#[test]
fn ristretto_from_bigint_reduces_big_endian_bytes() {
    assert_eq!(from_bigint(&[]), RistrettoScalar::zero());
    assert_eq!(from_bigint(&[0]), RistrettoScalar::zero());
    assert_eq!(from_bigint(&[7]), scalar(7));
    assert_eq!(from_bigint(&[0, 0, 7]), scalar(7));
    let mut le = [0u8; 32];
    le[1] = 1;
    assert_eq!(from_bigint(&[1, 0]).to_bytes(), le);
    let mut order_be = ORDER_LE;
    order_be.reverse();
    assert_eq!(from_bigint(&order_be), RistrettoScalar::zero());
    let mut above = order_be;
    above[31] += 5;
    assert_eq!(from_bigint(&above), scalar(5));
    // 2^256 = 16 * order - 16 * 27742317777372353535851937790883648493
    let mut wide = [0u8; 33];
    wide[0] = 1;
    let low = RistrettoScalar::from_bytes([
        0xed, 0xd3, 0xf5, 0x5c, 0x1a, 0x63, 0x12, 0x58, 0xd6, 0x9c, 0xf7, 0xa2, 0xde, 0xf9, 0xde,
        0x14, 0, 0, 0, 0, 0, 0, 0, 0, 0, 0, 0, 0, 0, 0, 0, 0,
    ]);
    let expected = RistrettoScalar::zero().minus(&low.times(&scalar(16)));
    assert_eq!(from_bigint(&wide), expected);
}

#[test]
fn ristretto_scalar_bytes_are_reduced() {
    assert_eq!(RistrettoScalar::from_bytes(ORDER_LE), RistrettoScalar::zero());
    assert_eq!(RistrettoScalar::from_bytes(ORDER_LE).to_bytes(), [0u8; 32]);
    let mut above = ORDER_LE;
    above[0] += 2;
    assert_eq!(RistrettoScalar::from_bytes(above), scalar(2));
    let mut bytes = [0u8; 32];
    bytes[0] = 9;
    bytes[5] = 1;
    assert_eq!(RistrettoScalar::from_bytes(bytes).to_bytes(), bytes);
    assert_eq!(scalar(200).to_bytes()[0], 200);
}

#[test]
fn ristretto_scalar_arithmetic() {
    assert_eq!(scalar(200).plus(&scalar(100)), from_bigint(&[1, 44]));
    assert_eq!(scalar(200).times(&scalar(100)), from_bigint(&[0x4e, 0x20]));
    assert_eq!(scalar(200).minus(&scalar(100)), scalar(100));
    let mut below = ORDER_LE;
    below[0] -= 1;
    assert_eq!(scalar(0).minus(&scalar(1)).to_bytes(), below);
    assert_eq!(scalar(0).minus(&scalar(1)).plus(&scalar(1)), scalar(0));
    let third = scalar(3).invert();
    assert_ne!(third, scalar(3));
    assert_eq!(third.times(&scalar(3)), RistrettoScalar::one());
    assert_eq!(scalar(1).invert(), scalar(1));
    assert!(scalar(0).is_zero());
    assert!(!scalar(1).is_zero());
    assert!(RistrettoScalar::from_bytes(ORDER_LE).is_zero());
    assert_eq!(RistrettoScalar::one(), scalar(1));
    assert_eq!(RistrettoScalar::zero().to_bytes(), [0u8; 32]);
}

#[test]
fn ristretto_group_operations() {
    let g = RistrettoElement::commit(&scalar(1));
    assert_eq!(g.to_bytes(), BASEPOINT);
    let two = RistrettoElement::commit(&scalar(2));
    assert_ne!(two.to_bytes(), BASEPOINT);
    assert!(g.join(&g).same(&two));
    assert!(g.scale(&scalar(2)).same(&two));
    assert!(!g.same(&two));
    assert!(two.scale(&scalar(3)).same(&RistrettoElement::commit(&scalar(6))));
    assert!(two.join(&g).same(&RistrettoElement::commit(&scalar(3))));
    let neutral = RistrettoElement::commit(&scalar(0));
    assert_eq!(neutral.to_bytes(), [0u8; 32]);
    assert!(g.join(&neutral).same(&g));
    assert!(g.scale(&scalar(0)).same(&neutral));
    let minus_one = scalar(0).minus(&scalar(1));
    assert!(RistrettoElement::commit(&minus_one).join(&g).same(&neutral));
}

#[test]
fn ristretto_agrees_with_the_curve_library() {
    let a = new_random().unwrap();
    let b = new_random().unwrap();
    let x = Scalar::from_bytes_mod_order(a.to_bytes());
    let y = Scalar::from_bytes_mod_order(b.to_bytes());
    assert_eq!(a.plus(&b).to_bytes(), (x + y).to_bytes());
    assert_eq!(a.minus(&b).to_bytes(), (x - y).to_bytes());
    assert_eq!(a.times(&b).to_bytes(), (x * y).to_bytes());
    assert_eq!(a.invert().to_bytes(), x.invert().to_bytes());
    let p = RistrettoElement::commit(&a);
    assert_eq!(p.to_bytes(), (RISTRETTO_BASEPOINT_POINT * x).compress().to_bytes());
    assert_eq!(p.scale(&b).to_bytes(), (RISTRETTO_BASEPOINT_POINT * x * y).compress().to_bytes());
    let vss = VerifiableSecretSharingRistretto { threshold: 2, share_amount: 2 };
    let shares = vss.evaluate_polynomial(&[a, b]);
    assert_eq!(shares[1].1.to_bytes(), (x + Scalar::from(2u64) * y).to_bytes());
}

#[test]
fn ristretto_new_checks_the_configuration() {
    let vss = VerifiableSecretSharingRistretto::new(3, 5).unwrap();
    assert_eq!((vss.threshold, vss.share_amount), (3, 5));
    assert!(VerifiableSecretSharingRistretto::new(5, 5).is_ok());
    assert!(VerifiableSecretSharingRistretto::new(1, 1).is_ok());
    assert_eq!(VerifiableSecretSharingRistretto::new(0, 5).err(), Some(VssError::Configuration));
    assert_eq!(VerifiableSecretSharingRistretto::new(6, 5).err(), Some(VssError::Configuration));
    assert_eq!(VerifiableSecretSharingRistretto::new(0, 0).err(), Some(VssError::Configuration));
}

#[test]
fn ristretto_same_polynomial_same_dealing() {
    let vss = VerifiableSecretSharingRistretto { threshold: 3, share_amount: 5 };
    let polynomial = [scalar(7), scalar(2), scalar(3)];
    let (first, first_commitments) = vss.deal(&polynomial).unwrap();
    let (second, second_commitments) = vss.deal(&polynomial).unwrap();
    assert_eq!(first, second);
    for i in 0..3 {
        assert_eq!(first_commitments[i].to_bytes(), second_commitments[i].to_bytes());
    }
}

#[test]
fn ristretto_other_polynomial_other_dealing() {
    let vss = VerifiableSecretSharingRistretto { threshold: 3, share_amount: 5 };
    let (first, first_commitments) = vss.deal(&[scalar(7), scalar(2), scalar(3)]).unwrap();
    let (second, second_commitments) = vss.deal(&[scalar(7), scalar(2), scalar(4)]).unwrap();
    assert!(first_commitments[0].same(&second_commitments[0]));
    assert!(first_commitments[1].same(&second_commitments[1]));
    assert!(!first_commitments[2].same(&second_commitments[2]));
    assert!((0..3).any(|j| first[j].1 != second[j].1));
    // two shares and the secret fix the polynomial: with one constant term
    // the dealings cannot agree on two shares
    assert!((0..5).filter(|&j| first[j].1 == second[j].1).count() < 2);
}

#[test]
fn ristretto_first_commitment_is_to_the_secret() {
    let vss = VerifiableSecretSharingRistretto { threshold: 4, share_amount: 6 };
    let secret = new_random().unwrap();
    let (_, commitments) = vss.split(&secret).unwrap();
    assert!(commitments[0].same(&RistrettoElement::commit(&secret)));
    assert!(!commitments[1].same(&RistrettoElement::commit(&secret)));
}

#[test]
fn ristretto_interpolation_returns_the_given_values() {
    let vss = VerifiableSecretSharingRistretto { threshold: 3, share_amount: 9 };
    let xs = [2usize, 5, 9];
    let ys = [new_random().unwrap(), new_random().unwrap(), new_random().unwrap()];
    for m in 0..3 {
        let at = scalar(xs[m] as u8);
        assert_eq!(vss.lagrange_interpolation(at, &xs, &ys), Ok(ys[m]));
    }
}

