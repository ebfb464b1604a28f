use grug::genesis::{AdminOption, GenesisBuilder, GenesisError};
use grug::types::{Addr, Config, Hash256, Message};
use sha2::{Digest, Sha256};

fn config() -> Config {
    Config { owner: None, bank: Addr::mock(7) }
}

fn expected_address(code_hash: &[u8; 32], salt: &[u8]) -> [u8; 32] {
    let mut preimage = vec![0u8; 32];
    preimage.extend_from_slice(code_hash);
    preimage.extend_from_slice(salt);
    Sha256::digest(&preimage).into()
}

#[test]
fn store_code_returns_sha256_of_code() {
    let mut builder = GenesisBuilder::new();
    let hash = builder.store_code(b"abc".to_vec());
    let expected: [u8; 32] = [
        0xba, 0x78, 0x16, 0xbf, 0x8f, 0x01, 0xcf, 0xea, 0x41, 0x41, 0x40, 0xde, 0x5d, 0xae, 0x22, 0x23, 0xb0, 0x03,
        0x61, 0xa3, 0x96, 0x17, 0x7a, 0x9c, 0xb4, 0x10, 0xff, 0x61, 0xf2, 0x00, 0x15, 0xad,
    ];
    assert_eq!(hash.0, expected);
}

#[test]
fn instantiate_address_and_admin() {
    let mut builder = GenesisBuilder::new();
    let code_hash = Hash256([9u8; 32]);
    let contract = builder.instantiate(code_hash, b"{}".to_vec(), b"salt".to_vec(), vec![], AdminOption::SetToSelf);
    assert_eq!(contract.0, expected_address(&[9u8; 32], b"salt"));
    let other = builder.instantiate(code_hash, b"{}".to_vec(), b"pepper".to_vec(), vec![], AdminOption::SetToNone);
    assert_ne!(contract.0, other.0);
    builder.set_config(config()).unwrap();
    let state = builder.finalize().unwrap();
    match &state.msgs[0] {
        Message::Instantiate { admin: Some(a), salt, .. } => {
            assert_eq!(a.0, contract.0);
            assert_eq!(salt, b"salt");
        },
        _ => panic!("expected an instantiate message"),
    }
    assert!(matches!(&state.msgs[1], Message::Instantiate { admin: None, .. }));
}

#[test]
fn instantiate_admin_set_to_addr() {
    let mut builder = GenesisBuilder::new();
    builder.instantiate(Hash256([1u8; 32]), vec![], vec![], vec![], AdminOption::SetToAddr(Addr::mock(3)));
    builder.set_config(config()).unwrap();
    let state = builder.finalize().unwrap();
    assert!(matches!(&state.msgs[0], Message::Instantiate { admin: Some(a), .. } if a.0 == [3u8; 32]));
}

#[test]
fn store_code_messages_come_first() {
    let mut builder = GenesisBuilder::new();
    builder.execute(Addr::mock(1), b"{\"a\":1}".to_vec(), vec![]);
    let contract =
        builder.store_code_and_instantiate(b"wasm".to_vec(), b"{}".to_vec(), b"s".to_vec(), vec![], AdminOption::SetToNone);
    let hash = builder.store_code(b"more".to_vec());
    builder.set_config(config()).unwrap();
    let state = builder.finalize().unwrap();
    assert_eq!(state.msgs.len(), 4);
    assert!(matches!(&state.msgs[0], Message::StoreCode { wasm_byte_code } if wasm_byte_code == b"wasm"));
    assert!(matches!(&state.msgs[1], Message::StoreCode { wasm_byte_code } if wasm_byte_code == b"more"));
    assert!(matches!(&state.msgs[2], Message::Execute { .. }));
    assert!(matches!(&state.msgs[3], Message::Instantiate { .. }));
    let wasm_hash: [u8; 32] = Sha256::digest(b"wasm").into();
    assert_eq!(contract.0, expected_address(&wasm_hash, b"s"));
    assert_eq!(hash.0, <[u8; 32]>::from(Sha256::digest(b"more")));
}

#[test]
fn config_set_twice_is_refused() {
    let mut builder = GenesisBuilder::new();
    assert_eq!(builder.set_config(config()), Ok(()));
    assert_eq!(builder.set_config(config()), Err(GenesisError::ConfigSetTwice));
    let state = builder.finalize().unwrap();
    assert_eq!(state.config.bank.0, [7u8; 32]);
}

#[test]
fn finalize_without_config_is_refused() {
    let builder = GenesisBuilder::new();
    assert!(matches!(builder.finalize(), Err(GenesisError::ConfigNotSet)));
}
