use eigen_trust::epoch::Epoch;
use eigen_trust::ivp::IVP;
use eigen_trust::peer::{MAX_NEIGHBOURS, SCALE};
use eigen_trust::scalar::Scalar;
use eigen_trust::utils::{decode_bootstrap_pubkeys, hex_to_field, to_wide, to_wide_bytes};
use eigen_trust::EigenError;

#[test]
fn bootstrap_peer_is_seeded_on_first_iteration() {
    // A bootstrap peer at epoch 7, iteration 0, with local weight one half:
    // the computed sum of incoming opinions is replaced by the bootstrap
    // score before weighting.
    let mut op_ji = [0u64; MAX_NEIGHBOURS];
    op_ji[0] = SCALE / 10;
    let c_v = SCALE / 2;
    let bootstrap_score = 3 * SCALE;

    let seeded = IVP::compute_opinion(&op_ji, c_v, 0, true, bootstrap_score);
    assert_eq!(seeded, (3 * SCALE as u128) * (SCALE as u128 / 2));

    let unseeded = IVP::compute_opinion(&op_ji, c_v, 1, true, bootstrap_score);
    assert_eq!(unseeded, (SCALE as u128 / 10) * (SCALE as u128 / 2));

    let ordinary = IVP::compute_opinion(&op_ji, c_v, 0, false, bootstrap_score);
    assert_eq!(ordinary, (SCALE as u128 / 10) * (SCALE as u128 / 2));
}

#[test]
fn hash_input_binds_epoch_iteration_opinion_and_keys() {
    let pk_v = Scalar::from_u64(1111);
    let pk_p = Scalar::from_u64(2222);
    let input = IVP::opinion_hash_input(Epoch(7), 0, 1234, &pk_v, &pk_p);
    assert_eq!(input[0], Scalar::from_u64(7));
    assert_eq!(input[1], Scalar::from_u64(0));
    assert_eq!(input[2], Scalar::from_u128(1234));
    assert_eq!(input[3], pk_v);
    assert_eq!(input[4], pk_p);

    let identity = IVP::identity_hash_input(&pk_p);
    assert_eq!(identity[0], Scalar::from_u64(0));
    assert_eq!(identity[3], Scalar::from_u64(0));
    assert_eq!(identity[4], pk_p);
}

#[test]
fn verification_rebuilds_the_same_hash_input() {
    let pk_v = Scalar::from_u64(5);
    let pk_p = Scalar::from_u64(6);
    let ivp = IVP::new(Epoch(7), 0, 99, vec![1, 2, 3]);
    let rebuilt = ivp.verification_hash_input(&pk_v, &pk_p);
    let direct = IVP::opinion_hash_input(Epoch(7), 0, 99, &pk_v, &pk_p);
    assert_eq!(rebuilt, direct);
}

#[test]
fn zero_opinion_takes_the_carried_hash() {
    let recomputed = Scalar::from_u64(4242);
    let mut ivp = IVP::new(Epoch(1), 2, 0, vec![]);
    ivp.m_hash = Scalar::from_u64(777).to_bytes();
    let chosen = ivp.select_public_input(recomputed).unwrap();
    assert_eq!(chosen, Scalar::from_u64(777));

    ivp.m_hash = [0xff; 32];
    let rejected = ivp.select_public_input(recomputed);
    assert!(matches!(rejected, Err(EigenError::VerificationError)));

    ivp.op = 5;
    let nonzero = ivp.select_public_input(recomputed).unwrap();
    assert_eq!(nonzero, recomputed);
}

#[test]
fn bootstrap_keys_decode_through_base58_and_reduction() {
    // "2" is the base58 digit for one: it decodes to the byte 0x01, which
    // widens little-endian to the field element one.
    let keys = vec!["2".to_string()];
    let decoded = decode_bootstrap_pubkeys(&keys).unwrap();
    assert_eq!(decoded.len(), 1);
    assert_eq!(decoded[0], Scalar::from_u64(1));
    assert!(IVP::is_bootstrap_peer(&Scalar::from_u64(1), &decoded));
    assert!(!IVP::is_bootstrap_peer(&Scalar::from_u64(2), &decoded));

    // "0" is not in the base58 alphabet.
    let bad = decode_bootstrap_pubkeys(&vec!["0".to_string()]);
    assert!(matches!(bad, Err(EigenError::InvalidBootstrapPubkey)));
}

#[test]
fn bootstrap_keys_that_decode_too_wide_are_rejected() {
    // A hundred base58 digits decode to more bytes than the 64-byte
    // reduction input holds.
    let long_key = "z".repeat(100);
    let result = decode_bootstrap_pubkeys(&vec![long_key]);
    assert!(matches!(result, Err(EigenError::InvalidBootstrapPubkey)));
}

#[test]
fn opinions_above_one_still_sum_and_weigh() {
    // Cached opinion products may exceed the fixed-point one, up to the
    // cache bound; the opinion computation takes them as they are.
    let mut op_ji = [0u64; MAX_NEIGHBOURS];
    op_ji[0] = 2 * SCALE;
    op_ji[1] = SCALE / 2;
    let c_v = SCALE / 2;
    let op = IVP::compute_opinion(&op_ji, c_v, 3, false, 0);
    assert_eq!(op, (2 * SCALE as u128 + SCALE as u128 / 2) * (SCALE as u128 / 2));
}

#[test]
fn hex_strings_become_field_elements() {
    // The leading prefix is dropped, the digits decode big-endian and the
    // bytes are reversed into little-endian order before reduction.
    assert_eq!(hex_to_field("0x01"), Scalar::from_u64(1));
    assert_eq!(hex_to_field("0x0100"), Scalar::from_u64(256));
    assert_eq!(hex_to_field("0xff"), Scalar::from_u64(255));
}

#[test]
fn widening_pads_with_zeros() {
    let mut src = [0u8; 32];
    src[0] = 9;
    src[31] = 7;
    let wide = to_wide(src);
    assert_eq!(wide[0], 9);
    assert_eq!(wide[31], 7);
    assert_eq!(wide[32], 0);
    assert_eq!(wide[63], 0);

    let wide2 = to_wide_bytes(&[1, 2, 3]);
    assert_eq!(wide2[0], 1);
    assert_eq!(wide2[2], 3);
    assert_eq!(wide2[3], 0);
}
