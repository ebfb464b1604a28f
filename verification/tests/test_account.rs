use grug::account::{is_valid_secret_key, make_sign_bytes, SignError, TestAccount};
use grug::types::{Addr, Hash256, Message};
use k256::ecdsa::signature::hazmat::PrehashVerifier;
use k256::ecdsa::{Signature, SigningKey};
use sha2::{Digest, Sha256};

#[test]
fn new_random_address_and_key() {
    let account = TestAccount::new_random(&Hash256([5u8; 32]), b"alice");
    let mut preimage = vec![0u8; 32];
    preimage.extend_from_slice(&[5u8; 32]);
    preimage.extend_from_slice(b"alice");
    let expected: [u8; 32] = Sha256::digest(&preimage).into();
    assert_eq!(account.address.0, expected);
    let sk = SigningKey::from_bytes((&account.sk).into()).unwrap();
    let pk = sk.verifying_key().to_encoded_point(true);
    assert_eq!(account.pk.len(), 33);
    assert_eq!(account.pk.as_slice(), pk.as_bytes());
    let other = TestAccount::new_random(&Hash256([5u8; 32]), b"alice");
    assert_ne!(account.sk, other.sk);
}

#[test]
fn make_sign_bytes_hashes_the_framed_fields() {
    let hash = make_sign_bytes(b"[]", &Addr::mock(2), "dev-1", 0x01020304);
    let mut preimage = b"[]".to_vec();
    preimage.extend_from_slice(&[2u8; 32]);
    preimage.extend_from_slice(b"dev-1");
    preimage.extend_from_slice(&[1, 2, 3, 4]);
    assert_eq!(hash, <[u8; 32]>::from(Sha256::digest(&preimage)));
}

#[test]
fn sign_transaction_signature_verifies() {
    let account = TestAccount::new_random(&Hash256([1u8; 32]), b"bob");
    let msgs = vec![Message::Execute { contract: Addr::mock(4), msg: b"{}".to_vec(), funds: vec![] }];
    let json = b"[{\"execute\":{}}]";
    let tx = account.sign_transaction(msgs, json, 1_000_000, "dev-1", 7).unwrap();
    assert_eq!(tx.sender.0, account.address.0);
    assert_eq!(tx.gas_limit, 1_000_000);
    assert_eq!(tx.msgs.len(), 1);
    assert_eq!(tx.credential.sequence, 7);
    assert_eq!(tx.credential.signature.len(), 64);
    let sign_bytes = make_sign_bytes(json, &account.address, "dev-1", 7);
    let sk = SigningKey::from_bytes((&account.sk).into()).unwrap();
    let sig = Signature::from_slice(&tx.credential.signature).unwrap();
    assert!(sk.verifying_key().verify_prehash(&sign_bytes, &sig).is_ok());
    let again = account.sign_transaction(vec![], json, 1_000_000, "dev-1", 7).unwrap();
    assert_eq!(again.credential.signature, tx.credential.signature);
    let other = account.sign_transaction(vec![], json, 1_000_000, "dev-1", 8).unwrap();
    assert_ne!(other.credential.signature, tx.credential.signature);
    let _ = SignError::SigningFailed;
}

#[test]
fn secret_key_validity() {
    let order: [u8; 32] = [
        0xFF, 0xFF, 0xFF, 0xFF, 0xFF, 0xFF, 0xFF, 0xFF, 0xFF, 0xFF, 0xFF, 0xFF, 0xFF, 0xFF, 0xFF, 0xFE, 0xBA, 0xAE,
        0xDC, 0xE6, 0xAF, 0x48, 0xA0, 0x3B, 0xBF, 0xD2, 0x5E, 0x8C, 0xD0, 0x36, 0x41, 0x41,
    ];
    assert!(!is_valid_secret_key(&[0u8; 32]));
    assert!(!is_valid_secret_key(&order));
    let mut below = order;
    below[31] = 0x40;
    assert!(is_valid_secret_key(&below));
    let mut one = [0u8; 32];
    one[31] = 1;
    assert!(is_valid_secret_key(&one));
    assert!(!is_valid_secret_key(&[0xFF; 32]));
    let account = TestAccount::new_random(&Hash256([0u8; 32]), b"");
    assert!(is_valid_secret_key(&account.sk));
}
