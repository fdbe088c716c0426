//! Delegations: signed, read back, checked.

use libp2p_ffi::delegation::{message, now_ms, unix_ms_of, Delegation, Invalid};
use libp2p_ffi::ffi::{lp2p_delegation_sign, lp2p_delegation_verify, lp2p_key_from_seed};
use libp2p_ffi::abi::LP2P_ERR_INVALID_ARGUMENT;

#[test]
fn a_signed_delegation_verifies_and_survives_the_round_trip() {
    let d = Delegation::sign(&[1; 32], &[2; 32], 0).unwrap();
    let parsed = Delegation::parse(&d.to_bytes()).unwrap();
    assert_eq!(parsed, d);
    assert_eq!(parsed.verify_for(&[2; 32], now_ms()), Ok(()));
}

#[test]
fn anything_changed_is_refused() {
    let d = Delegation::sign(&[1; 32], &[2; 32], 0).unwrap();
    let mut other_node = d;
    other_node.node = [3; 32];
    assert_eq!(other_node.verify(now_ms()), Err(Invalid::Signature));
    assert_eq!(d.verify_for(&[3; 32], now_ms()), Err(Invalid::WrongNode));

    let expired = Delegation::sign(&[1; 32], &[2; 32], 1000).unwrap();
    assert_eq!(expired.verify(now_ms()), Err(Invalid::Expired));
    assert_eq!(Delegation::parse(&[0; 10]), Err(Invalid::Length));
}

#[test]
fn the_bytes_are_laid_out_as_documented() {
    let d = Delegation::sign(&[1; 32], &[2; 32], 0x0102030405060708).unwrap();
    let bytes = d.to_bytes();
    assert_eq!(&bytes[..32], &[2; 32]);
    assert_eq!(&bytes[32..64], &d.group);
    assert_eq!(&bytes[64..72], &[1, 2, 3, 4, 5, 6, 7, 8]);
    assert_eq!(&bytes[72..], &d.signature);
    assert_eq!(Ok(d.group), lp2p_key_from_seed(&[1; 32]));

    let msg = message(&[2; 32], &d.group, 0x0102030405060708);
    let mut expected = b"libp2p-ffi delegation v1".to_vec();
    expected.extend_from_slice(&[2; 32]);
    expected.extend_from_slice(&d.group);
    expected.extend_from_slice(&[1, 2, 3, 4, 5, 6, 7, 8]);
    assert_eq!(msg, expected);
}

#[test]
fn the_signature_is_the_groups_own() {
    let d = Delegation::sign(&[1; 32], &[2; 32], 7).unwrap();
    let mut seed = [1u8; 32];
    let secret = libp2p::identity::ed25519::SecretKey::try_from_bytes(&mut seed).unwrap();
    let keypair = libp2p::identity::ed25519::Keypair::from(secret);
    assert_eq!(d.group, keypair.public().to_bytes());
    let msg = message(&[2; 32], &d.group, 7);
    assert_eq!(d.signature.to_vec(), keypair.sign(&msg));
    assert!(keypair.public().verify(&msg, &d.signature));
}

#[test]
fn a_delegation_holds_until_it_expires() {
    let d = Delegation::sign(&[1; 32], &[2; 32], 1000).unwrap();
    assert_eq!(d.verify(999), Ok(()));
    assert_eq!(d.verify(1000), Err(Invalid::Expired));
    assert_eq!(d.verify_for(&[9; 32], 1000), Err(Invalid::Expired));
    let forever = Delegation::sign(&[1; 32], &[2; 32], 0).unwrap();
    assert_eq!(forever.verify(u64::MAX), Ok(()));
}

#[test]
fn a_group_that_is_no_key_is_named_as_such() {
    let d = Delegation::sign(&[1; 32], &[2; 32], 0).unwrap();
    // Some byte strings are no point of the curve.
    let bad = (0..=255u8)
        .map(|b| {
            let mut key = [0u8; 32];
            key[0] = b;
            key
        })
        .find(|key| libp2p::identity::ed25519::PublicKey::try_from_bytes(key).is_err())
        .unwrap();
    let mut other = d;
    other.group = bad;
    assert_eq!(other.verify(1), Err(Invalid::GroupKey));
    let mut tampered = d;
    tampered.signature[5] ^= 1;
    assert_eq!(tampered.verify(1), Err(Invalid::Signature));
    let mut longer = d;
    longer.expires_ms = 5;
    assert_eq!(longer.verify(1), Err(Invalid::Signature));
}

#[test]
fn callers_sign_and_verify() {
    let node = lp2p_key_from_seed(&[8; 32]).unwrap();
    let group = lp2p_key_from_seed(&[9; 32]).unwrap();
    let bytes = lp2p_delegation_sign(&[9; 32], &node, 5000).unwrap();
    assert_eq!(lp2p_delegation_verify(&bytes, 4999), Ok((group, node)));
    assert_eq!(lp2p_delegation_verify(&bytes, 5000), Err(LP2P_ERR_INVALID_ARGUMENT));
    // Zero asks for the present, which is long past.
    assert_eq!(lp2p_delegation_verify(&bytes, 0), Err(LP2P_ERR_INVALID_ARGUMENT));
    assert_eq!(lp2p_delegation_verify(&bytes[..135], 1), Err(LP2P_ERR_INVALID_ARGUMENT));
    let forever = lp2p_delegation_sign(&[9; 32], &node, 0).unwrap();
    assert_eq!(lp2p_delegation_verify(&forever, 0), Ok((group, node)));
}

#[test]
fn the_clock_is_read_as_far_as_it_fits() {
    assert_eq!(unix_ms_of(None), 0);
    assert_eq!(unix_ms_of(Some(1_700_000_000_000)), 1_700_000_000_000);
    assert_eq!(unix_ms_of(Some(u64::MAX as u128 + 6)), 5);
}
