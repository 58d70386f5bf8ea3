use merlin::Transcript;
use range_proof::commitment_scheme::{commit, trusted_setup, CommitError, SetupError, MAX_DEGREE};
use range_proof::field::{DecodingError, FieldElement, MODULUS_LE};
use range_proof::poly::{DomainError, Polynomial};
use range_proof::range_proof::{prove, verify, Proof, ProofError, VerificationError, PROOF_LEN};

fn prove_and_verify(max_degree: usize, n: usize, z: u64) -> Result<(), VerificationError> {
    let (pk, vk) = trusted_setup(max_degree).unwrap();
    let mut t1 = Transcript::new(b"range_proof");
    let proof = prove(&pk, n, &FieldElement::from_u64(z), &mut t1).unwrap();
    let mut t2 = Transcript::new(b"range_proof");
    verify(&proof, &vk, n, &mut t2)
}

#[test]
fn accepts_n32_z100() {
    assert_eq!(prove_and_verify(128, 32, 100), Ok(()));
}

#[test]
fn accepts_n1_and_n2() {
    for z in [0u64, 1] {
        assert_eq!(prove_and_verify(4, 1, z), Ok(()));
    }
    for z in [0u64, 1, 2, 3] {
        assert_eq!(prove_and_verify(8, 2, z), Ok(()));
    }
    let (pk, _vk) = trusted_setup(4).unwrap();
    let mut t = Transcript::new(b"range_proof");
    assert_eq!(prove(&pk, 1, &FieldElement::from_u64(2), &mut t), Err(ProofError::ValueOutOfRange));
}

#[test]
fn key_length_bound_is_exact() {
    let (pk, _vk) = trusted_setup(18).unwrap();
    let mut t = Transcript::new(b"range_proof");
    assert!(prove(&pk, 8, &FieldElement::from_u64(3), &mut t).is_ok());
    let (pk, _vk) = trusted_setup(17).unwrap();
    let mut t = Transcript::new(b"range_proof");
    assert_eq!(prove(&pk, 8, &FieldElement::from_u64(3), &mut t), Err(ProofError::Commit(CommitError::PolynomialTooLarge)));
}

#[test]
fn accepts_n8_extremes() {
    let (pk, vk) = trusted_setup(32).unwrap();
    for z in [0u64, 1, 2, 127, 128, 255] {
        let mut t1 = Transcript::new(b"range_proof");
        let proof = prove(&pk, 8, &FieldElement::from_u64(z), &mut t1).unwrap();
        let mut t2 = Transcript::new(b"range_proof");
        assert_eq!(verify(&proof, &vk, 8, &mut t2), Ok(()));
    }
}

#[test]
fn accepts_n16_largest() {
    assert_eq!(prove_and_verify(64, 16, 65535), Ok(()));
}

#[test]
fn accepts_n64_largest() {
    assert_eq!(prove_and_verify(256, 64, u64::MAX), Ok(()));
}

#[test]
fn out_of_range_value_is_refused() {
    let (pk, _vk) = trusted_setup(128).unwrap();
    let mut t = Transcript::new(b"range_proof");
    let r = prove(&pk, 32, &FieldElement::from_u64(1u64 << 33), &mut t);
    assert_eq!(r, Err(ProofError::ValueOutOfRange));
    let mut t = Transcript::new(b"range_proof");
    let r = prove(&pk, 8, &FieldElement::from_u64(256), &mut t);
    assert_eq!(r, Err(ProofError::ValueOutOfRange));
}

#[test]
fn invalid_domain_size_is_refused() {
    let (pk, vk) = trusted_setup(128).unwrap();
    let mut t = Transcript::new(b"range_proof");
    assert_eq!(prove(&pk, 12, &FieldElement::from_u64(1), &mut t), Err(ProofError::Domain(DomainError::InvalidSize)));
    let mut t = Transcript::new(b"range_proof");
    assert_eq!(prove(&pk, 0, &FieldElement::from_u64(1), &mut t), Err(ProofError::Domain(DomainError::InvalidSize)));
    let mut t1 = Transcript::new(b"range_proof");
    let proof = prove(&pk, 8, &FieldElement::from_u64(3), &mut t1).unwrap();
    let mut t2 = Transcript::new(b"range_proof");
    assert_eq!(verify(&proof, &vk, 12, &mut t2), Err(VerificationError::Domain(DomainError::InvalidSize)));
}

#[test]
fn small_key_is_refused() {
    let (pk, _vk) = trusted_setup(8).unwrap();
    let mut t = Transcript::new(b"range_proof");
    assert_eq!(prove(&pk, 32, &FieldElement::from_u64(5), &mut t), Err(ProofError::Commit(CommitError::PolynomialTooLarge)));
}

#[test]
fn rejects_other_bit_width() {
    let (pk, vk) = trusted_setup(128).unwrap();
    let mut t1 = Transcript::new(b"range_proof");
    let proof = prove(&pk, 16, &FieldElement::from_u64(100), &mut t1).unwrap();
    let mut t2 = Transcript::new(b"range_proof");
    assert!(verify(&proof, &vk, 8, &mut t2).is_err());
    let mut t3 = Transcript::new(b"range_proof");
    assert!(verify(&proof, &vk, 32, &mut t3).is_err());
}

#[test]
fn rejects_replaced_commitment() {
    let (pk, vk) = trusted_setup(128).unwrap();
    let mut t1 = Transcript::new(b"range_proof");
    let proof = prove(&pk, 16, &FieldElement::from_u64(100), &mut t1).unwrap();
    let mut t1b = Transcript::new(b"range_proof");
    let other = prove(&pk, 16, &FieldElement::from_u64(7), &mut t1b).unwrap();
    let mut forged = proof;
    forged.f_commitment = other.f_commitment;
    let mut t2 = Transcript::new(b"range_proof");
    assert!(verify(&forged, &vk, 16, &mut t2).is_err());
    let mut forged = proof;
    forged.g_commitment = other.g_commitment;
    let mut t3 = Transcript::new(b"range_proof");
    assert!(verify(&forged, &vk, 16, &mut t3).is_err());
}

#[test]
fn rejects_other_label() {
    let (pk, vk) = trusted_setup(64).unwrap();
    let mut t1 = Transcript::new(b"range_proof");
    let proof = prove(&pk, 16, &FieldElement::from_u64(100), &mut t1).unwrap();
    let mut t2 = Transcript::new(b"other_protocol");
    assert!(verify(&proof, &vk, 16, &mut t2).is_err());
}

#[test]
fn fresh_blinding_gives_distinct_proofs() {
    let (pk, vk) = trusted_setup(64).unwrap();
    let mut t1 = Transcript::new(b"range_proof");
    let p1 = prove(&pk, 16, &FieldElement::from_u64(100), &mut t1).unwrap();
    let mut t2 = Transcript::new(b"range_proof");
    let p2 = prove(&pk, 16, &FieldElement::from_u64(100), &mut t2).unwrap();
    assert_ne!(p1.f_commitment, p2.f_commitment);
    assert_ne!(p1.g_commitment, p2.g_commitment);
    let mut t3 = Transcript::new(b"range_proof");
    assert_eq!(verify(&p1, &vk, 16, &mut t3), Ok(()));
    let mut t4 = Transcript::new(b"range_proof");
    assert_eq!(verify(&p2, &vk, 16, &mut t4), Ok(()));
}

#[test]
fn proof_round_trip() {
    let (pk, _vk) = trusted_setup(32).unwrap();
    let mut t = Transcript::new(b"range_proof");
    let proof = prove(&pk, 8, &FieldElement::from_u64(42), &mut t).unwrap();
    let bytes = proof.encode();
    assert_eq!(bytes.len(), PROOF_LEN);
    assert_eq!(Proof::decode(&bytes), Ok(proof));
    assert_eq!(Proof::decode(&bytes[..PROOF_LEN - 1]), Err(DecodingError::MalformedBytes));
}

#[test]
fn field_round_trip_and_non_canonical() {
    let x = FieldElement::from_u64(0x0102030405060708);
    let b = x.to_bytes();
    assert_eq!(b[0], 8);
    assert_eq!(b[7], 1);
    assert_eq!(FieldElement::from_bytes(&b), Ok(x));
    assert_eq!(FieldElement::from_bytes(&MODULUS_LE), Err(DecodingError::MalformedBytes));
    let mut below = MODULUS_LE;
    below[0] = 0;
    assert!(FieldElement::from_bytes(&below).is_ok());
}

#[test]
fn tampered_bytes_reject() {
    let (pk, vk) = trusted_setup(32).unwrap();
    let mut t = Transcript::new(b"range_proof");
    let proof = prove(&pk, 8, &FieldElement::from_u64(42), &mut t).unwrap();
    let bytes = proof.encode();
    for pos in [0usize, 31, 32, 63, 64, 95, 96, 143, 144, 191, 192, 239, 240, 287, 288, 335] {
        let mut b = bytes.clone();
        b[pos] ^= 1;
        match Proof::decode(&b) {
            Err(_) => {}
            Ok(p) => {
                let mut t2 = Transcript::new(b"range_proof");
                assert!(verify(&p, &vk, 8, &mut t2).is_err(), "byte {} accepted", pos);
            }
        }
    }
}

#[test]
fn commit_refuses_large_degree() {
    let (pk, _vk) = trusted_setup(4).unwrap();
    assert_eq!(pk.len(), 5);
    let small = Polynomial { coeffs: vec![FieldElement::from_u64(1); 5] };
    assert!(commit(&pk, &small).is_ok());
    let large = Polynomial { coeffs: vec![FieldElement::from_u64(1); 6] };
    assert_eq!(commit(&pk, &large), Err(CommitError::PolynomialTooLarge));
    let mut padded = vec![FieldElement::from_u64(1); 5];
    padded.push(FieldElement::from_u64(0));
    assert_eq!(commit(&pk, &Polynomial { coeffs: padded }), commit(&pk, &small));
}

#[test]
fn setup_refuses_bad_degrees() {
    assert_eq!(trusted_setup(0).err(), Some(SetupError::InvalidDegree));
    assert_eq!(trusted_setup(MAX_DEGREE + 1).err(), Some(SetupError::DegreeTooLarge));
    let (pk, vk) = trusted_setup(3).unwrap();
    assert_eq!(pk.powers.len(), 4);
    assert_eq!(vk.g, pk.powers[0]);
}
