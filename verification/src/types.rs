//! Addresses, hashes, coins and messages: the values that a genesis state
//! and a transaction are made of.
use vstd::prelude::*;
use crate::hash::{sha256, sha256_of};
use crate::keys::append_bytes;

verus! {

/// A 32-byte hash.
#[derive(Clone, Copy, Debug)]
pub struct Hash256(pub [u8; 32]);

/// A 32-byte account address.
#[derive(Clone, Copy, Debug)]
pub struct Addr(pub [u8; 32]);

/// The address made by hashing the deployer's address, the code hash and the salt.
pub open spec fn spec_compute_address(deployer: Seq<u8>, code_hash: Seq<u8>, salt: Seq<u8>) -> Seq<u8> {
    sha256_of(deployer + code_hash + salt)
}

impl Addr {
    /// The address whose 32 bytes are all `index`, for use in tests and at genesis.
    pub fn mock(index: u8) -> (a: Addr)
        ensures
            a.0@ == Seq::new(32, |i: int| index),
    {
        let a = Addr([index; 32]);
        assert(a.0@ =~= Seq::new(32, |i: int| index));
        a
    }

    /// The address of a contract instantiated by `deployer` from the code
    /// with hash `code_hash` and with salt `salt`: the SHA-256 digest of the
    /// three concatenated.
    pub fn compute(deployer: &Addr, code_hash: &Hash256, salt: &[u8]) -> (a: Addr)
        ensures
            a.0@ == spec_compute_address(deployer.0@, code_hash.0@, salt@),
    {
        let mut preimage: Vec<u8> = Vec::new();
        append_bytes(&mut preimage, deployer.0.as_slice());
        append_bytes(&mut preimage, code_hash.0.as_slice());
        append_bytes(&mut preimage, salt);
        assert(preimage@ =~= deployer.0@ + code_hash.0@ + salt@);
        Addr(sha256(preimage.as_slice()))
    }
}

/// An amount of one denomination of coin.
#[derive(Clone, Debug)]
pub struct Coin {
    pub denom: String,
    pub amount: u128,
}

/// The chain's configuration at genesis.
#[derive(Clone, Debug)]
pub struct Config {
    pub owner: Option<Addr>,
    pub bank: Addr,
}

/// A message that a genesis state or a transaction carries; contract
/// messages are JSON bytes.
#[derive(Clone, Debug)]
pub enum Message {
    StoreCode { wasm_byte_code: Vec<u8> },
    Instantiate {
        code_hash: Hash256,
        msg: Vec<u8>,
        salt: Vec<u8>,
        funds: Vec<Coin>,
        admin: Option<Addr>,
    },
    Execute { contract: Addr, msg: Vec<u8>, funds: Vec<Coin> },
}

/// What proves that the sender authorized a transaction: the signature over
/// its sign bytes and the sender's sequence number.
#[derive(Clone, Debug)]
pub struct Credential {
    pub signature: Vec<u8>,
    pub sequence: u32,
}

/// A transaction: its sender, gas limit, messages and credential.
#[derive(Clone, Debug)]
pub struct Tx {
    pub sender: Addr,
    pub gas_limit: u64,
    pub msgs: Vec<Message>,
    pub credential: Credential,
}

} // verus!
