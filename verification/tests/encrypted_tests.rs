// Tests for the EncryptedPrivateKeyInfo codec: decoding, encoding, the
// round-trip and canonicity laws on concrete values, and each error case.

use pkcs8::AlgorithmIdentifier;
use pkcs8::EncryptedPrivateKeyInfo;
use pkcs8::Error;

/// A minimal algorithm identifier: SEQUENCE { OID 1.2 }.
fn minimal_alg() -> Vec<u8> {
    vec![0x30, 0x03, 0x06, 0x01, 0x2a]
}

/// A small complete container: minimal scheme, 16 zero bytes of
/// ciphertext.
fn sample_container_bytes() -> Vec<u8> {
    let mut v = vec![0x30, 0x17];
    v.extend_from_slice(&minimal_alg());
    v.push(0x04);
    v.push(0x10);
    v.extend_from_slice(&[0x00; 16]);
    v
}

#[test]
fn decode_sample_container() {
    let input = sample_container_bytes();
    let info = EncryptedPrivateKeyInfo::try_from(input.as_slice()).unwrap();
    assert_eq!(info.encrypted_data, vec![0x00; 16]);
    assert_eq!(info.encryption_algorithm.as_bytes(), &minimal_alg());
}

#[test]
fn reencode_is_byte_identical() {
    let input = sample_container_bytes();
    let info = EncryptedPrivateKeyInfo::try_from(input.as_slice()).unwrap();
    let out = info.to_vec().unwrap();
    assert_eq!(out, input);
}

#[test]
fn round_trip_constructed_value() {
    let alg = AlgorithmIdentifier::new(minimal_alg()).unwrap();
    let info = EncryptedPrivateKeyInfo {
        encryption_algorithm: alg,
        encrypted_data: vec![0xde, 0xad, 0xbe, 0xef],
    };
    let out = info.to_vec().unwrap();
    let back = EncryptedPrivateKeyInfo::try_from(out.as_slice()).unwrap();
    assert_eq!(back.encrypted_data, vec![0xde, 0xad, 0xbe, 0xef]);
    assert_eq!(back.encryption_algorithm.as_bytes(), &minimal_alg());
}

#[test]
fn encode_exact_bytes() {
    let alg = AlgorithmIdentifier::new(minimal_alg()).unwrap();
    let info = EncryptedPrivateKeyInfo {
        encryption_algorithm: alg,
        encrypted_data: vec![0x01, 0x02, 0x03],
    };
    let out = info.to_vec().unwrap();
    let expected = vec![
        0x30, 0x0a, 0x30, 0x03, 0x06, 0x01, 0x2a, 0x04, 0x03, 0x01, 0x02, 0x03,
    ];
    assert_eq!(out, expected);
}

#[test]
fn empty_ciphertext_round_trips() {
    let input = vec![0x30, 0x07, 0x30, 0x03, 0x06, 0x01, 0x2a, 0x04, 0x00];
    let info = EncryptedPrivateKeyInfo::try_from(input.as_slice()).unwrap();
    assert_eq!(info.encrypted_data, Vec::<u8>::new());
    let out = info.to_vec().unwrap();
    assert_eq!(out, input);
}

#[test]
fn swapped_fields_rejected() {
    // Octet string first, scheme second: the same two sub-values in the
    // wrong order.
    let mut input = vec![0x30, 0x17, 0x04, 0x10];
    input.extend_from_slice(&[0x00; 16]);
    input.extend_from_slice(&minimal_alg());
    let r = EncryptedPrivateKeyInfo::try_from(input.as_slice());
    assert_eq!(r.unwrap_err(), Error::ShapeMismatch);
}

#[test]
fn single_field_rejected() {
    let mut input = vec![0x30, 0x05];
    input.extend_from_slice(&minimal_alg());
    let r = EncryptedPrivateKeyInfo::try_from(input.as_slice());
    assert_eq!(r.unwrap_err(), Error::ShapeMismatch);
}

#[test]
fn empty_sequence_rejected() {
    let input = vec![0x30, 0x00];
    let r = EncryptedPrivateKeyInfo::try_from(input.as_slice());
    assert_eq!(r.unwrap_err(), Error::ShapeMismatch);
}

#[test]
fn wrong_ciphertext_tag_rejected() {
    // The sample container with the octet-string tag replaced by the
    // integer tag.
    let mut input = sample_container_bytes();
    input[7] = 0x02;
    let r = EncryptedPrivateKeyInfo::try_from(input.as_slice());
    assert_eq!(r.unwrap_err(), Error::ShapeMismatch);
}

#[test]
fn constructed_octet_string_tag_rejected() {
    // DER forbids the constructed form of OCTET STRING (tag 0x24).
    let mut input = sample_container_bytes();
    input[7] = 0x24;
    let r = EncryptedPrivateKeyInfo::try_from(input.as_slice());
    assert_eq!(r.unwrap_err(), Error::ShapeMismatch);
}

#[test]
fn truncated_input_rejected() {
    // The outer header claims 50 content bytes; only 10 follow.
    let mut input = vec![0x30, 0x32];
    input.extend_from_slice(&[0x30, 0x03, 0x06, 0x01, 0x2a, 0x04, 0x03, 0x01, 0x02, 0x03]);
    let r = EncryptedPrivateKeyInfo::try_from(input.as_slice());
    assert_eq!(r.unwrap_err(), Error::StructuralDecode);
}

#[test]
fn unsupported_scheme_is_kept_opaque() {
    // A well-formed identifier of an unrelated, unsupported scheme decodes
    // and is returned as-is: the scheme is opaque data here.
    let alg = vec![0x30, 0x06, 0x06, 0x04, 0x2b, 0x65, 0x70, 0x01];
    let mut input = vec![0x30, 0x0c];
    input.extend_from_slice(&alg);
    input.extend_from_slice(&[0x04, 0x02, 0xab, 0xcd]);
    let info = EncryptedPrivateKeyInfo::try_from(input.as_slice()).unwrap();
    assert_eq!(info.encryption_algorithm.as_bytes(), &alg);
    assert_eq!(info.encrypted_data, vec![0xab, 0xcd]);
}

#[test]
fn trailing_bytes_rejected() {
    let mut input = sample_container_bytes();
    input.push(0x00);
    let r = EncryptedPrivateKeyInfo::try_from(input.as_slice());
    assert_eq!(r.unwrap_err(), Error::StructuralDecode);
}

#[test]
fn extra_third_field_rejected() {
    let mut input = vec![0x30, 0x09];
    input.extend_from_slice(&minimal_alg());
    input.extend_from_slice(&[0x04, 0x00, 0x05, 0x00]);
    let r = EncryptedPrivateKeyInfo::try_from(input.as_slice());
    assert_eq!(r.unwrap_err(), Error::ShapeMismatch);
}

#[test]
fn malformed_scheme_rejected() {
    // The first sub-value claims more content than the sequence holds.
    let input = vec![0x30, 0x02, 0x06, 0x05];
    let r = EncryptedPrivateKeyInfo::try_from(input.as_slice());
    assert_eq!(r.unwrap_err(), Error::SchemeDecode);
}

#[test]
fn empty_input_rejected() {
    let input: Vec<u8> = Vec::new();
    let r = EncryptedPrivateKeyInfo::try_from(input.as_slice());
    assert_eq!(r.unwrap_err(), Error::StructuralDecode);
}

#[test]
fn outer_tag_not_sequence_rejected() {
    let input = vec![0x04, 0x02, 0x01, 0x02];
    let r = EncryptedPrivateKeyInfo::try_from(input.as_slice());
    assert_eq!(r.unwrap_err(), Error::ShapeMismatch);
}

#[test]
fn non_minimal_length_rejected() {
    // The sample container reframed with a needless long-form outer length.
    let mut input = vec![0x30, 0x81, 0x17];
    input.extend_from_slice(&sample_container_bytes()[2..]);
    let r = EncryptedPrivateKeyInfo::try_from(input.as_slice());
    assert_eq!(r.unwrap_err(), Error::StructuralDecode);
}

#[test]
fn indefinite_length_rejected() {
    let mut input = vec![0x30, 0x80];
    input.extend_from_slice(&sample_container_bytes()[2..]);
    input.extend_from_slice(&[0x00, 0x00]);
    let r = EncryptedPrivateKeyInfo::try_from(input.as_slice());
    assert_eq!(r.unwrap_err(), Error::StructuralDecode);
}

#[test]
fn reserved_length_byte_rejected() {
    let mut input = vec![0x30, 0xff];
    input.extend_from_slice(&sample_container_bytes()[2..]);
    let r = EncryptedPrivateKeyInfo::try_from(input.as_slice());
    assert_eq!(r.unwrap_err(), Error::StructuralDecode);
}

#[test]
fn multi_byte_tag_on_second_field_rejected() {
    let mut input = sample_container_bytes();
    input[7] = 0x1f;
    let r = EncryptedPrivateKeyInfo::try_from(input.as_slice());
    assert_eq!(r.unwrap_err(), Error::StructuralDecode);
}

#[test]
fn long_form_length_round_trips() {
    let alg = AlgorithmIdentifier::new(minimal_alg()).unwrap();
    let info = EncryptedPrivateKeyInfo {
        encryption_algorithm: alg,
        encrypted_data: vec![0x5a; 200],
    };
    let out = info.to_vec().unwrap();
    // Octet string: 04 81 C8, then 200 bytes; body = 5 + 203 = 208 = 0xD0.
    assert_eq!(&out[..2], &[0x30, 0x81]);
    assert_eq!(out[2], 0xd0);
    assert_eq!(&out[8..11], &[0x04, 0x81, 0xc8]);
    let back = EncryptedPrivateKeyInfo::try_from(out.as_slice()).unwrap();
    assert_eq!(back.encrypted_data, vec![0x5a; 200]);
    assert_eq!(back.encryption_algorithm.as_bytes(), &minimal_alg());
}

#[test]
fn boundary_length_128_uses_long_form() {
    let alg = AlgorithmIdentifier::new(minimal_alg()).unwrap();
    let info = EncryptedPrivateKeyInfo {
        encryption_algorithm: alg,
        encrypted_data: vec![0x11; 128],
    };
    let out = info.to_vec().unwrap();
    let back = EncryptedPrivateKeyInfo::try_from(out.as_slice()).unwrap();
    assert_eq!(back.encrypted_data, vec![0x11; 128]);
    // The 128-byte contents need the two-byte long form: 04 81 80.
    assert!(out.windows(3).any(|w| w == [0x04, 0x81, 0x80]));
}

#[test]
fn boundary_length_127_uses_short_form() {
    let alg = AlgorithmIdentifier::new(minimal_alg()).unwrap();
    let info = EncryptedPrivateKeyInfo {
        encryption_algorithm: alg,
        encrypted_data: vec![0x11; 127],
    };
    let out = info.to_vec().unwrap();
    let back = EncryptedPrivateKeyInfo::try_from(out.as_slice()).unwrap();
    assert_eq!(back.encrypted_data, vec![0x11; 127]);
    assert!(out.windows(2).any(|w| w == [0x04, 0x7f]));
}

#[test]
fn algorithm_identifier_accepts_one_value() {
    let a = AlgorithmIdentifier::new(minimal_alg()).unwrap();
    assert_eq!(a.as_bytes(), &minimal_alg());
}

#[test]
fn algorithm_identifier_rejects_truncated() {
    let r = AlgorithmIdentifier::new(vec![0x30, 0x05, 0x06]);
    assert_eq!(r.unwrap_err(), Error::SchemeDecode);
}

#[test]
fn algorithm_identifier_rejects_trailing() {
    let r = AlgorithmIdentifier::new(vec![0x05, 0x00, 0x00]);
    assert_eq!(r.unwrap_err(), Error::SchemeDecode);
}

#[test]
fn algorithm_identifier_rejects_empty() {
    let r = AlgorithmIdentifier::new(Vec::new());
    assert_eq!(r.unwrap_err(), Error::SchemeDecode);
}
