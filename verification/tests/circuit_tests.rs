use eigen_trust::circuit::{ETPublicInputs, SCALAR_LEN};
use eigen_trust::scalar::Scalar;
use eigen_trust::EigenError;

#[test]
fn test_et_public_inputs_new() {
    let scalar = Scalar::from_u64(123_456_789);

    let inputs = ETPublicInputs::new(
        vec![scalar.clone()],
        vec![scalar.clone()],
        scalar.clone(),
        scalar,
    );

    assert_eq!(inputs.participants.len(), 1);
    assert_eq!(inputs.scores.len(), 1);
}

#[test]
fn test_et_public_inputs_to_vec() {
    let scalar = Scalar::from_u64(987_654_321);
    let inputs = ETPublicInputs::new(
        vec![scalar.clone()],
        vec![scalar.clone()],
        scalar.clone(),
        scalar.clone(),
    );

    let vec_representation = inputs.to_vec();

    assert_eq!(vec_representation.len(), 4);
    assert_eq!(vec_representation[0], scalar);
    assert_eq!(vec_representation[1], scalar);
    assert_eq!(vec_representation[2], scalar);
    assert_eq!(vec_representation[3], scalar);
}

#[test]
fn test_et_public_inputs_to_bytes() {
    let scalar = Scalar::from_u128(0xdead_beef_cafe);
    let inputs = ETPublicInputs::new(
        vec![scalar.clone()],
        vec![scalar.clone()],
        scalar.clone(),
        scalar.clone(),
    );

    let bytes_representation = inputs.to_bytes();

    assert_eq!(bytes_representation.len(), 4 * 32);
}

#[test]
fn test_et_public_inputs_from_bytes() {
    let scalar = Scalar::from_u64(31_337);
    let inputs = ETPublicInputs::new(
        vec![scalar.clone()],
        vec![scalar.clone()],
        scalar.clone(),
        scalar.clone(),
    );

    let bytes_representation = inputs.to_bytes();

    let reconstructed_inputs = ETPublicInputs::from_bytes(bytes_representation, 1).unwrap();

    assert_eq!(inputs.participants, reconstructed_inputs.participants);
    assert_eq!(inputs.scores, reconstructed_inputs.scores);
    assert_eq!(inputs.domain, reconstructed_inputs.domain);
    assert_eq!(inputs.opinion_hash, reconstructed_inputs.opinion_hash);
}

#[test]
fn test_invalid_byte_length() {
    let scalar = Scalar::from_u64(5);
    let inputs = ETPublicInputs::new(
        vec![scalar.clone()],
        vec![scalar.clone()],
        scalar.clone(),
        scalar.clone(),
    );
    let mut bytes_representation = inputs.to_bytes();

    // Remove some bytes to make it invalid
    bytes_representation.pop();

    let result = ETPublicInputs::from_bytes(bytes_representation, 1);
    assert!(result.is_err());
}

#[test]
fn test_multiple_participants() {
    let scalar1 = Scalar::from_u64(1);
    let scalar2 = Scalar::from_u64(2);
    let inputs = ETPublicInputs::new(
        vec![scalar1.clone(), scalar2.clone()],
        vec![scalar1.clone(), scalar2.clone()],
        scalar1.clone(),
        scalar2.clone(),
    );

    let bytes_representation = inputs.to_bytes();
    let reconstructed_inputs = ETPublicInputs::from_bytes(bytes_representation, 2).unwrap();

    assert_eq!(inputs.participants, reconstructed_inputs.participants);
    assert_eq!(inputs.scores, reconstructed_inputs.scores);
}

#[test]
fn test_empty_vectors() {
    let scalar = Scalar::from_u64(77);
    let inputs = ETPublicInputs::new(vec![], vec![], scalar.clone(), scalar.clone());

    let bytes_representation = inputs.to_bytes();
    let reconstructed_inputs = ETPublicInputs::from_bytes(bytes_representation, 0).unwrap();

    assert!(reconstructed_inputs.participants.is_empty());
    assert!(reconstructed_inputs.scores.is_empty());
}

#[test]
fn test_invalid_scalar_byte_construction() {
    let invalid_bytes = vec![0u8; 128];

    let result = ETPublicInputs::from_bytes(invalid_bytes, 2);
    assert!(result.is_err());
}

#[test]
fn test_invalid_field_encoding_rejected() {
    // 64 bytes for zero participants, but the domain chunk is all ones:
    // far above the field order, so not canonical.
    let mut bytes = vec![0xffu8; SCALAR_LEN];
    bytes.extend(vec![0u8; SCALAR_LEN]);
    let result = ETPublicInputs::from_bytes(bytes, 0);
    assert!(matches!(result, Err(EigenError::ParsingError(_))));
}

#[test]
fn test_wrong_length_for_empty_inputs() {
    let result = ETPublicInputs::from_bytes(vec![0u8; 63], 0);
    assert!(result.is_err());
    let ok = ETPublicInputs::from_bytes(vec![0u8; 64], 0);
    assert!(ok.is_ok());
}

#[test]
fn scalar_round_trips_and_rejects_non_canonical() {
    let bytes = Scalar::from_u64(99).to_bytes();
    let back = Scalar::from_bytes(&bytes).unwrap();
    assert_eq!(back.to_bytes(), bytes);
    assert!(Scalar::from_bytes(&[0xff; 32]).is_none());
    assert!(Scalar::from_bytes(&[0x00; 32]).is_some());
}
