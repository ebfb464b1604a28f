//! Test accounts: an address with a secp256k1 key pair that signs transactions.
use vstd::prelude::*;
use vstd::string::StringSliceAdditionalSpecFns;
use k256::ecdsa::signature::hazmat::PrehashSigner;
use crate::hash::{sha256, sha256_of};
use crate::keys::append_bytes;
use crate::types::{Addr, Credential, Hash256, Message, Tx, spec_compute_address};

verus! {

/// The order of the secp256k1 group as 32 big-endian bytes
/// (FFFFFFFF FFFFFFFF FFFFFFFF FFFFFFFE BAAEDCE6 AF48A03B BFD25E8C D0364141).
pub open spec fn secp256k1_order_bytes() -> Seq<u8> {
    seq![
        0xFFu8, 0xFF, 0xFF, 0xFF, 0xFF, 0xFF, 0xFF, 0xFF, 0xFF, 0xFF, 0xFF, 0xFF, 0xFF, 0xFF, 0xFF, 0xFE,
        0xBA, 0xAE, 0xDC, 0xE6, 0xAF, 0x48, 0xA0, 0x3B, 0xBF, 0xD2, 0x5E, 0x8C, 0xD0, 0x36, 0x41, 0x41,
    ]
}

/// The order of the secp256k1 group.
pub open spec fn secp256k1_order() -> nat {
    be_value(secp256k1_order_bytes())
}

/// The number that `b` writes in big-endian order.
pub open spec fn be_value(b: Seq<u8>) -> nat
    decreases b.len(),
{
    if b.len() == 0 {
        0
    } else {
        be_value(b.drop_last()) * 256 + b.last() as nat
    }
}

/// `b` is a secp256k1 secret key: 32 big-endian bytes of a number from 1
/// to the group order (excluded).
pub open spec fn is_secp256k1_scalar(b: Seq<u8>) -> bool {
    &&& b.len() == 32
    &&& 0 < be_value(b)
    &&& be_value(b) < secp256k1_order()
}

proof fn lemma_be_value_step(a: Seq<u8>, i: int)
    requires
        0 <= i < a.len(),
    ensures
        be_value(a.take(i + 1)) == be_value(a.take(i)) * 256 + a[i] as nat,
{
    assert(a.take(i + 1).drop_last() =~= a.take(i));
}

proof fn lemma_step_keeps_order(va: nat, vb: nat, x: u8, y: u8)
    requires
        va < vb,
    ensures
        va * 256 + x < vb * 256 + y,
{
    assert(va * 256 + x < vb * 256 + y) by (nonlinear_arith)
        requires
            va < vb,
            x < 256,
    ;
}

/// Whether `sk` is a valid secp256k1 secret key: a number from 1 to the
/// group order (excluded) in big-endian bytes.
pub fn is_valid_secret_key(sk: &[u8; 32]) -> (r: bool)
    ensures
        r == is_secp256k1_scalar(sk@),
{
    let order: [u8; 32] = [
        0xFF, 0xFF, 0xFF, 0xFF, 0xFF, 0xFF, 0xFF, 0xFF, 0xFF, 0xFF, 0xFF, 0xFF, 0xFF, 0xFF, 0xFF, 0xFE,
        0xBA, 0xAE, 0xDC, 0xE6, 0xAF, 0x48, 0xA0, 0x3B, 0xBF, 0xD2, 0x5E, 0x8C, 0xD0, 0x36, 0x41, 0x41,
    ];
    assert(order@ =~= secp256k1_order_bytes());
    let ghost a = sk@;
    let ghost b = order@;
    // below: the bytes read so far give a smaller number than the order's;
    // above: a larger one; neither: the same.
    let mut below = false;
    let mut above = false;
    let mut nonzero = false;
    let mut i: usize = 0;
    assert(a.take(0) =~= Seq::<u8>::empty());
    assert(b.take(0) =~= Seq::<u8>::empty());
    while i < 32
        invariant
            i <= 32,
            a == sk@,
            b == order@,
            a.len() == 32,
            b.len() == 32,
            below == (be_value(a.take(i as int)) < be_value(b.take(i as int))),
            above == (be_value(a.take(i as int)) > be_value(b.take(i as int))),
            nonzero == (be_value(a.take(i as int)) > 0),
        decreases 32 - i,
    {
        let x = sk[i];
        let y = order[i];
        proof {
            lemma_be_value_step(a, i as int);
            lemma_be_value_step(b, i as int);
            let va = be_value(a.take(i as int));
            let vb = be_value(b.take(i as int));
            if va < vb {
                lemma_step_keeps_order(va, vb, x, y);
            }
            if vb < va {
                lemma_step_keeps_order(vb, va, y, x);
            }
            assert(va * 256 >= 0) by (nonlinear_arith);
            if va > 0 {
                assert(va * 256 > 0) by (nonlinear_arith)
                    requires
                        va > 0,
                ;
            }
        }
        if !below && !above {
            below = x < y;
            above = x > y;
        }
        nonzero = nonzero || x != 0;
        i += 1;
    }
    assert(a.take(32) =~= a);
    assert(b.take(32) =~= b);
    nonzero && below
}

/// The compressed SEC1 encoding of the public key of secret key `sk`.
pub uninterp spec fn secp256k1_public_key(sk: Seq<u8>) -> Seq<u8>;

/// The ECDSA signature (r and s, 64 bytes) that secret key `sk` makes over
/// the 32-byte `prehash`, with the nonce of RFC 6979; `None` where signing fails.
pub uninterp spec fn secp256k1_sign_prehash(sk: Seq<u8>, prehash: Seq<u8>) -> Option<Seq<u8>>;

/// Calls `k256::ecdsa::SigningKey::random` with the operating system's
/// random source and returns the key's bytes (`to_bytes`). The contract
/// claims only that these bytes are a valid secret key; which key comes
/// back is left unsaid, as it is random.
#[verifier::external_body]
fn random_secret_key() -> (sk: [u8; 32])
    ensures
        is_secp256k1_scalar(sk@),
{
    k256::ecdsa::SigningKey::random(&mut rand::rngs::OsRng).to_bytes().into()
}

/// Calls `k256::ecdsa::VerifyingKey::to_encoded_point` (compressed) on the
/// public key of the signing key made from `sk` (`SigningKey::from_bytes`,
/// which accepts exactly the valid secret keys). The contract claims that
/// the result is a function of `sk`, 33 bytes long.
#[verifier::external_body]
fn compressed_public_key(sk: &[u8; 32]) -> (pk: Vec<u8>)
    requires
        is_secp256k1_scalar(sk@),
    ensures
        pk@ == secp256k1_public_key(sk@),
        pk@.len() == 33,
{
    let key = k256::ecdsa::SigningKey::from_bytes(k256::FieldBytes::from_slice(sk)).unwrap();
    key.verifying_key().to_encoded_point(true).as_bytes().to_vec()
}

/// Calls `PrehashSigner::sign_prehash` of `k256::ecdsa::SigningKey` (made
/// from `sk` by `SigningKey::from_bytes`) and returns the signature's 64
/// bytes (`Signature::to_vec`), or `None` on the crate's error. The contract
/// claims that the outcome is a function of `sk` and `prehash`, as RFC 6979
/// makes the nonce from them.
#[verifier::external_body]
fn sign_prehash(sk: &[u8; 32], prehash: &[u8; 32]) -> (sig: Option<Vec<u8>>)
    requires
        is_secp256k1_scalar(sk@),
    ensures
        match sig {
            Some(s) => secp256k1_sign_prehash(sk@, prehash@) == Some(s@) && s@.len() == 64,
            None => secp256k1_sign_prehash(sk@, prehash@) is None,
        },
{
    let key = k256::ecdsa::SigningKey::from_bytes(k256::FieldBytes::from_slice(sk)).unwrap();
    match PrehashSigner::<k256::ecdsa::Signature>::sign_prehash(&key, prehash) {
        Ok(signature) => Some(signature.to_vec()),
        Err(_) => None,
    }
}

/// A number as four big-endian bytes.
pub open spec fn be32(n: u32) -> Seq<u8> {
    seq![
        (n / 0x100_0000) as u8,
        ((n / 0x1_0000) % 0x100) as u8,
        ((n / 0x100) % 0x100) as u8,
        (n % 0x100) as u8,
    ]
}

/// The bytes that a sender signs for a transaction: the messages as JSON,
/// the sender's address, the chain id and the sequence number in four
/// big-endian bytes, one after the other.
pub open spec fn sign_preimage(msgs_json: Seq<u8>, sender: Seq<u8>, chain_id: Seq<u8>, sequence: u32) -> Seq<u8> {
    msgs_json + sender + chain_id + be32(sequence)
}

/// The SHA-256 digest of the bytes that a sender signs for a transaction
/// whose messages serialize to `msgs_json`.
pub fn make_sign_bytes(msgs_json: &[u8], sender: &Addr, chain_id: &str, sequence: u32) -> (hash: [u8; 32])
    ensures
        hash@ == sha256_of(sign_preimage(msgs_json@, sender.0@, chain_id.spec_bytes(), sequence)),
{
    let mut prehash: Vec<u8> = Vec::new();
    append_bytes(&mut prehash, msgs_json);
    append_bytes(&mut prehash, sender.0.as_slice());
    append_bytes(&mut prehash, chain_id.as_bytes());
    let seq_bytes = [
        (sequence / 0x100_0000) as u8,
        ((sequence / 0x1_0000) % 0x100) as u8,
        ((sequence / 0x100) % 0x100) as u8,
        (sequence % 0x100) as u8,
    ];
    append_bytes(&mut prehash, seq_bytes.as_slice());
    assert(seq_bytes@ =~= be32(sequence));
    assert(prehash@ =~= sign_preimage(msgs_json@, sender.0@, chain_id.spec_bytes(), sequence));
    sha256(prehash.as_slice())
}

/// Why a transaction could not be signed.
#[derive(Debug, PartialEq, Eq, Structural)]
pub enum SignError {
    /// The signing library refused to sign.
    SigningFailed,
}

/// An account for tests: its address, its secret key and the compressed
/// encoding of its public key.
pub struct TestAccount {
    pub address: Addr,
    pub sk: [u8; 32],
    pub pk: Vec<u8>,
}

impl TestAccount {
    /// An account at the address that the genesis sender gets by
    /// instantiating code `code_hash` with `salt`, with a fresh random key.
    pub fn new_random(code_hash: &Hash256, salt: &[u8]) -> (account: Self)
        ensures
            account.address.0@ == spec_compute_address(Seq::new(32, |i: int| 0u8), code_hash.0@, salt@),
            is_secp256k1_scalar(account.sk@),
            account.pk@ == secp256k1_public_key(account.sk@),
            account.pk@.len() == 33,
    {
        let sender = Addr::mock(0);
        let address = Addr::compute(&sender, code_hash, salt);
        let sk = random_secret_key();
        let pk = compressed_public_key(&sk);
        TestAccount { address, sk, pk }
    }

    /// The transaction that carries `msgs` (which serialize to `msgs_json`),
    /// sent from this account, signed over its sign bytes for `chain_id`
    /// and `sequence`.
    pub fn sign_transaction(
        &self,
        msgs: Vec<Message>,
        msgs_json: &[u8],
        gas_limit: u64,
        chain_id: &str,
        sequence: u32,
    ) -> (r: Result<Tx, SignError>)
        requires
            is_secp256k1_scalar(self.sk@),
        ensures
            ({
                let sign_bytes = sha256_of(sign_preimage(msgs_json@, self.address.0@, chain_id.spec_bytes(), sequence));
                match r {
                    Ok(tx) => {
                        &&& tx.sender == self.address
                        &&& tx.gas_limit == gas_limit
                        &&& tx.msgs == msgs
                        &&& tx.credential.sequence == sequence
                        &&& secp256k1_sign_prehash(self.sk@, sign_bytes) == Some(tx.credential.signature@)
                        &&& tx.credential.signature@.len() == 64
                    },
                    Err(e) => {
                        &&& e == SignError::SigningFailed
                        &&& secp256k1_sign_prehash(self.sk@, sign_bytes) is None
                    },
                }
            }),
    {
        let sign_bytes = make_sign_bytes(msgs_json, &self.address, chain_id, sequence);
        match sign_prehash(&self.sk, &sign_bytes) {
            Some(signature) => Ok(
                Tx {
                    sender: self.address,
                    gas_limit,
                    msgs,
                    credential: Credential { signature, sequence },
                },
            ),
            None => Err(SignError::SigningFailed),
        }
    }
}

} // verus!
